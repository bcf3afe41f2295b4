use vhost_user_nvrm::abi::Dev;
use vhost_user_nvrm::mirror::Mirror;

/// A removed token that came back would send stale requests to another descriptor.
#[test]
fn tokens_start_at_one_and_are_never_reused() {
    let mut m = Mirror::new();
    let a = m.insert(30, Dev::Ctl);
    let b = m.insert(31, Dev::Ctl);
    let c = m.insert(32, Dev::Ctl);
    assert_eq!((a, b, c), (1, 2, 3), "tokens count up from 1");

    m.remove(b);
    m.remove(c);
    let d = m.insert(33, Dev::Ctl);
    assert_eq!(d, 4, "a freed token is not handed out again");
    assert!(d > c, "tokens are monotonic across removals");
}

/// Unknown, removed and zero tokens resolve to nothing.
#[test]
fn raw_resolves_live_tokens_and_nothing_else() {
    let mut m = Mirror::new();
    let want = 40;
    let tok = m.insert(want, Dev::Ctl);

    assert_eq!(m.raw(tok), Some(want), "the token names the FD it was given");
    assert_eq!(m.kind(tok), Some(Dev::Ctl));
    assert_eq!(m.raw(0), None, "0 is never a token");
    assert_eq!(m.raw(tok + 1), None, "a token never issued");
    assert_eq!(m.raw(u64::MAX), None, "a number the guest invented");

    assert_eq!(m.remove(tok), Some(want), "the descriptor to close");
    assert_eq!(m.raw(tok), None, "a removed token resolves to nothing");
    assert_eq!(m.remove(tok), None);
    assert_eq!(m.remove(12345), None);
}

/// Live descriptors shrink on close; the issued count does not.
#[test]
fn len_is_empty_and_ever_count_different_things() {
    let mut m = Mirror::new();
    assert_eq!((m.len(), m.is_empty(), m.ever()), (0, true, 0), "fresh mirror");

    let a = m.insert(5, Dev::Ctl);
    let b = m.insert(6, Dev::Ctl);
    assert_eq!((m.len(), m.is_empty(), m.ever()), (2, false, 2));

    m.remove(a);
    assert_eq!(m.len(), 1, "one given back");
    assert_eq!(m.ever(), 2, "but two were handed out, and that does not shrink");

    m.remove(b);
    assert!(m.is_empty(), "nothing held any more");
    assert_eq!(m.ever(), 2, "still two ever");
}

/// Both constructors start with no token issued.
#[test]
fn default_is_new() {
    let mut m = Mirror::default();
    assert_eq!(m.ever(), 0, "a fresh mirror has issued nothing");
    assert_eq!(m.len(), 0);
    assert!(m.is_empty());
    assert!(m.can_insert());
    assert_eq!(m.insert(7, Dev::Ctl), 1, "and its first token is 1, like new()");
    assert_eq!(m.ever(), 1);
}
