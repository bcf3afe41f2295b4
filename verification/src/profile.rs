//! The memory policy that a backend starts with, from its settings.
//!
//! An empty setting is an unset one. An unusable size, two policies at once, and a
//! reservation that leaves no framebuffer keep the backend from starting.

use crate::text::{dec, decimal, parse_bounded, parse_u64, parsed, trim, trimmed};
use crate::vram::{Policy, Profile};
use vstd::prelude::*;

verus! {

/// The reservation where none is set, in MiB.
pub const DEFAULT_RESERVATION_MIB: u64 = 256;

/// The largest size in MiB whose bytes a 64-bit counter holds.
pub const MAX_MIB: u64 = 0xfff_ffff_ffff;

/// The settings that name a size.
#[derive(Clone, Copy, Debug, PartialEq, Eq, Structural)]
pub enum Setting {
    Limit,
    Profile,
    Reserve,
    VgpuProfile,
    VgpuFb,
}

impl Setting {
    pub open spec fn variable(self) -> &'static str {
        match self {
            Setting::Limit => "LEA_VRAM_LIMIT_MIB",
            Setting::Profile => "LEA_VRAM_PROFILE_MIB",
            Setting::Reserve => "LEA_VRAM_RESERVE_MIB",
            Setting::VgpuProfile => "LEA_VGPU_PROFILE_MIB",
            Setting::VgpuFb => "LEA_VGPU_FB_MIB",
        }
    }

    /// The variable of a setting.
    pub fn name(self) -> (s: &'static str)
        ensures
            s == self.variable(),
    {
        match self {
            Setting::Limit => "LEA_VRAM_LIMIT_MIB",
            Setting::Profile => "LEA_VRAM_PROFILE_MIB",
            Setting::Reserve => "LEA_VRAM_RESERVE_MIB",
            Setting::VgpuProfile => "LEA_VGPU_PROFILE_MIB",
            Setting::VgpuFb => "LEA_VGPU_FB_MIB",
        }
    }
}

/// The settings as they were given.
#[derive(Clone, Copy)]
pub struct RawEnv<'a> {
    pub limit: Option<&'a str>,
    pub profile: Option<&'a str>,
    pub reserve: Option<&'a str>,
    pub vgpu_type: Option<&'static str>,
    pub vgpu_profile: Option<&'a str>,
    pub vgpu_fb: Option<&'a str>,
    pub vgpu_encoder: Option<&'a str>,
}

impl<'a> Default for RawEnv<'a> {
    fn default() -> (r: RawEnv<'a>)
        ensures
            r.limit is None,
            r.profile is None,
            r.reserve is None,
            r.vgpu_type is None,
            r.vgpu_profile is None,
            r.vgpu_fb is None,
            r.vgpu_encoder is None,
    {
        RawEnv {
            limit: None,
            profile: None,
            reserve: None,
            vgpu_type: None,
            vgpu_profile: None,
            vgpu_fb: None,
            vgpu_encoder: None,
        }
    }
}

impl<'a> RawEnv<'a> {
    /// What was given for a size.
    pub open spec fn given(&self, s: Setting) -> Option<&'a str> {
        match s {
            Setting::Limit => self.limit,
            Setting::Profile => self.profile,
            Setting::Reserve => self.reserve,
            Setting::VgpuProfile => self.vgpu_profile,
            Setting::VgpuFb => self.vgpu_fb,
        }
    }

    fn get(&self, s: Setting) -> (r: Option<&'a str>)
        ensures
            r == self.given(s),
    {
        match s {
            Setting::Limit => self.limit,
            Setting::Profile => self.profile,
            Setting::Reserve => self.reserve,
            Setting::VgpuProfile => self.vgpu_profile,
            Setting::VgpuFb => self.vgpu_fb,
        }
    }

    /// The size in MiB that a setting names.
    pub open spec fn size(&self, s: Setting) -> Option<u64> {
        match reading(self.given(s)) {
            Reading::Mib(n) => Some(n),
            _ => None,
        }
    }

    /// The name of the type, where there is one.
    pub open spec fn label(&self) -> Option<Seq<char>> {
        match self.vgpu_type {
            Some(t) => if trimmed(t@).len() == 0 {
                None
            } else {
                Some(trimmed(t@))
            },
            None => None,
        }
    }
}

/// How a size was understood.
#[derive(Clone, Copy, Debug, PartialEq, Eq, Structural)]
pub enum Reading {
    /// Nothing, blanks, or zero.
    Unset,
    Mib(u64),
    /// More than the byte counter holds.
    TooBig,
    NotNumber,
}

/// How a size is understood.
pub open spec fn reading(raw: Option<&str>) -> Reading {
    match raw {
        None => Reading::Unset,
        Some(s) => if trimmed(s@).len() == 0 {
            Reading::Unset
        } else {
            match parsed(trimmed(s@)) {
                None => Reading::NotNumber,
                Some(n) => if n == 0 {
                    Reading::Unset
                } else if n <= MAX_MIB {
                    Reading::Mib(n as u64)
                } else if n <= u64::MAX {
                    Reading::TooBig
                } else {
                    Reading::NotNumber
                },
            }
        },
    }
}

fn read(raw: Option<&str>) -> (r: Reading)
    ensures
        r == reading(raw),
{
    let s: &str = match raw {
        None => {
            return Reading::Unset;
        },
        Some(s) => s,
    };
    let t: &str = trim(s);
    if t.is_empty() {
        return Reading::Unset;
    }
    match parse_u64(t) {
        None => Reading::NotNumber,
        Some(n) => if n == 0 {
            Reading::Unset
        } else if n <= MAX_MIB {
            Reading::Mib(n)
        } else {
            Reading::TooBig
        },
    }
}

/// A setting that cannot be used.
#[derive(Clone, Copy, Debug, PartialEq, Eq, Structural)]
pub struct Fault {
    pub setting: Setting,
    pub too_big: bool,
}

/// The faults among the sizes, in the order in which the settings are read.
pub open spec fn faults(env: &RawEnv) -> Seq<Fault> {
    fault_of(env, Setting::Limit) + fault_of(env, Setting::Profile) + fault_of(env, Setting::Reserve)
        + fault_of(env, Setting::VgpuProfile) + fault_of(env, Setting::VgpuFb)
}

/// The fault of one setting, as a list of at most one.
pub open spec fn fault_of(env: &RawEnv, s: Setting) -> Seq<Fault> {
    match reading(env.given(s)) {
        Reading::TooBig => seq![Fault { setting: s, too_big: true }],
        Reading::NotNumber => seq![Fault { setting: s, too_big: false }],
        _ => Seq::empty(),
    }
}

/// A remark about settings that do nothing.
#[derive(Clone, Copy, Debug, PartialEq, Eq, Structural)]
pub enum Note {
    /// The sizes of a type are set, and no type is.
    SizesWithoutType,
    /// A reservation is set, and no profile is.
    ReserveWithoutProfile,
}

impl Note {
    pub open spec fn words(self) -> &'static str {
        match self {
            Note::SizesWithoutType => "LEA_VGPU_PROFILE_MIB / LEA_VGPU_FB_MIB are set without LEA_VGPU_TYPE -- there is no type to give them to, so they do nothing",
            Note::ReserveWithoutProfile => "LEA_VRAM_RESERVE_MIB is set without LEA_VRAM_PROFILE_MIB -- there is no profile to reserve from, so it does nothing",
        }
    }

    /// The remark in words.
    pub fn text(self) -> (s: &'static str)
        ensures
            s == self.words(),
    {
        match self {
            Note::SizesWithoutType => "LEA_VGPU_PROFILE_MIB / LEA_VGPU_FB_MIB are set without LEA_VGPU_TYPE -- there is no type to give them to, so they do nothing",
            Note::ReserveWithoutProfile => "LEA_VRAM_RESERVE_MIB is set without LEA_VRAM_PROFILE_MIB -- there is no profile to reserve from, so it does nothing",
        }
    }
}

/// A policy with its sizes in MiB.
#[derive(Clone, Copy, Debug)]
pub struct Choice {
    pub policy: Policy,
    pub size: u64,
    pub fb: u64,
    pub label: &'static str,
}

impl Choice {
    /// The framebuffer is part of the budget, and the counter holds the budget in bytes.
    pub open spec fn wf(&self) -> bool {
        &&& 0 < self.fb <= self.size <= MAX_MIB
        &&& self.policy != Policy::Off
    }
}

/// Why a backend does not start.
#[derive(Debug)]
pub enum ProfileError {
    Unusable(Vec<Fault>),
    /// A type beside another policy.
    TypeAndOther(&'static str),
    /// A type without its sizes.
    TypeAlone(&'static str),
    /// A type that keeps nothing back.
    NothingReserved { label: &'static str, profile: u64, fb: u64 },
    /// A limit and a profile.
    TwoPolicies { limit: u64, profile: u64 },
    /// A reservation as large as the profile.
    NothingLeft { reserve: u64, profile: u64 },
}

/// What the settings come to.
pub enum Verdict {
    Unusable(Seq<Fault>),
    TypeAndOther,
    TypeAlone,
    NothingReserved { profile: u64, fb: u64 },
    TwoPolicies { limit: u64, profile: u64 },
    NothingLeft { reserve: u64, profile: u64 },
    Off(Seq<Note>),
    Chosen { policy: Policy, size: u64, fb: u64, label: Seq<char>, notes: Seq<Note> },
}

/// The remarks about the settings of a type where there is none.
pub open spec fn type_notes(env: &RawEnv) -> Seq<Note> {
    if env.size(Setting::VgpuProfile) is Some || env.size(Setting::VgpuFb) is Some {
        seq![Note::SizesWithoutType]
    } else {
        Seq::empty()
    }
}

/// What the settings come to.
pub open spec fn verdict(env: &RawEnv) -> Verdict {
    let limit = env.size(Setting::Limit);
    let size = env.size(Setting::Profile);
    let reserve = env.size(Setting::Reserve);
    if faults(env).len() > 0 {
        Verdict::Unusable(faults(env))
    } else if env.label() is Some {
        if limit is Some || size is Some {
            Verdict::TypeAndOther
        } else {
            match (env.size(Setting::VgpuProfile), env.size(Setting::VgpuFb)) {
                (Some(p), Some(f)) => if f >= p {
                    Verdict::NothingReserved { profile: p, fb: f }
                } else {
                    Verdict::Chosen {
                        policy: Policy::Grid,
                        size: p,
                        fb: f,
                        label: env.label()->Some_0,
                        notes: Seq::empty(),
                    }
                },
                _ => Verdict::TypeAlone,
            }
        }
    } else {
        match (limit, size) {
            (Some(l), Some(p)) => Verdict::TwoPolicies { limit: l, profile: p },
            (None, Some(p)) => {
                let r = match reserve {
                    Some(r) => r,
                    None => DEFAULT_RESERVATION_MIB,
                };
                if r >= p {
                    Verdict::NothingLeft { reserve: r, profile: p }
                } else {
                    Verdict::Chosen {
                        policy: Policy::Reserved,
                        size: p,
                        fb: (p - r) as u64,
                        label: ""@,
                        notes: type_notes(env),
                    }
                }
            },
            (_, None) => {
                let notes = if reserve is Some {
                    type_notes(env).push(Note::ReserveWithoutProfile)
                } else {
                    type_notes(env)
                };
                match limit {
                    None => Verdict::Off(notes),
                    Some(l) => Verdict::Chosen {
                        policy: Policy::Accounting,
                        size: l,
                        fb: l,
                        label: ""@,
                        notes,
                    },
                }
            },
        }
    }
}

/// Whether a decision is what the settings come to.
pub open spec fn agrees(
    r: Result<(Option<Choice>, Vec<Note>), ProfileError>,
    env: &RawEnv,
) -> bool {
    match (r, verdict(env)) {
        (Err(ProfileError::Unusable(v)), Verdict::Unusable(want)) => v@ == want,
        (Err(ProfileError::TypeAndOther(t)), Verdict::TypeAndOther) => env.label() == Some(t@),
        (Err(ProfileError::TypeAlone(t)), Verdict::TypeAlone) => env.label() == Some(t@),
        (
            Err(ProfileError::NothingReserved { label, profile, fb }),
            Verdict::NothingReserved { profile: p, fb: f },
        ) => env.label() == Some(label@) && profile == p && fb == f,
        (
            Err(ProfileError::TwoPolicies { limit, profile }),
            Verdict::TwoPolicies { limit: l, profile: p },
        ) => limit == l && profile == p,
        (
            Err(ProfileError::NothingLeft { reserve, profile }),
            Verdict::NothingLeft { reserve: r, profile: p },
        ) => reserve == r && profile == p,
        (Ok((None, notes)), Verdict::Off(want)) => notes@ == want,
        (
            Ok((Some(c), notes)),
            Verdict::Chosen { policy, size, fb, label, notes: want },
        ) => {
            &&& c.policy == policy
            &&& c.size == size
            &&& c.fb == fb
            &&& c.label@ == label
            &&& notes@ == want
            &&& c.wf()
        },
        _ => false,
    }
}

fn note_fault(env: &RawEnv, s: Setting, out: &mut Vec<Fault>) -> (r: Option<u64>)
    ensures
        final(out)@ == old(out)@ + fault_of(env, s),
        r == env.size(s),
{
    match read(env.get(s)) {
        Reading::Unset => {
            assert(out@ =~= old(out)@ + fault_of(env, s));
            None
        },
        Reading::Mib(n) => {
            assert(out@ =~= old(out)@ + fault_of(env, s));
            Some(n)
        },
        Reading::TooBig => {
            out.push(Fault { setting: s, too_big: true });
            assert(out@ =~= old(out)@ + fault_of(env, s));
            None
        },
        Reading::NotNumber => {
            out.push(Fault { setting: s, too_big: false });
            assert(out@ =~= old(out)@ + fault_of(env, s));
            None
        },
    }
}

/// Decides the policy: one, none, or the reason not to start.
pub fn decide(env: &RawEnv) -> (r: Result<(Option<Choice>, Vec<Note>), ProfileError>)
    ensures
        agrees(r, env),
{
    let mut unusable: Vec<Fault> = Vec::new();
    let limit: Option<u64> = note_fault(env, Setting::Limit, &mut unusable);
    let size: Option<u64> = note_fault(env, Setting::Profile, &mut unusable);
    let reserve: Option<u64> = note_fault(env, Setting::Reserve, &mut unusable);
    let vgpu_profile: Option<u64> = note_fault(env, Setting::VgpuProfile, &mut unusable);
    let vgpu_fb: Option<u64> = note_fault(env, Setting::VgpuFb, &mut unusable);
    assert(unusable@ =~= faults(env));
    if unusable.len() > 0 {
        return Err(ProfileError::Unusable(unusable));
    }
    let mut notes: Vec<Note> = Vec::new();
    let label: Option<&'static str> = match env.vgpu_type {
        None => None,
        Some(t) => {
            let t: &'static str = trim(t);
            if t.is_empty() {
                None
            } else {
                Some(t)
            }
        },
    };
    if let Some(t) = label {
        if limit.is_some() || size.is_some() {
            return Err(ProfileError::TypeAndOther(t));
        }
        return match (vgpu_profile, vgpu_fb) {
            (Some(p), Some(f)) => if f >= p {
                Err(ProfileError::NothingReserved { label: t, profile: p, fb: f })
            } else {
                Ok((Some(Choice { policy: Policy::Grid, size: p, fb: f, label: t }), notes))
            },
            _ => Err(ProfileError::TypeAlone(t)),
        };
    }
    if vgpu_profile.is_some() || vgpu_fb.is_some() {
        notes.push(Note::SizesWithoutType);
    }
    assert(notes@ =~= type_notes(env));
    match (limit, size) {
        (Some(l), Some(p)) => Err(ProfileError::TwoPolicies { limit: l, profile: p }),
        (None, Some(p)) => {
            let r: u64 = match reserve {
                Some(r) => r,
                None => DEFAULT_RESERVATION_MIB,
            };
            if r >= p {
                Err(ProfileError::NothingLeft { reserve: r, profile: p })
            } else {
                Ok((Some(Choice { policy: Policy::Reserved, size: p, fb: p - r, label: "" }), notes))
            }
        },
        (limit, None) => {
            if reserve.is_some() {
                notes.push(Note::ReserveWithoutProfile);
            }
            match limit {
                None => Ok((None, notes)),
                Some(l) => Ok(
                    (Some(Choice { policy: Policy::Accounting, size: l, fb: l, label: "" }), notes),
                ),
            }
        },
    }
}

/// The encoder's share in percent: the card's own answer where it gave one, else a
/// setting between one and a hundred, else zero.
pub open spec fn encoder_percent(share: Option<u32>, setting: Option<&str>) -> u32 {
    match share {
        Some(s) => s,
        None => match setting {
            None => 0,
            Some(v) => match parsed(trimmed(v@)) {
                Some(n) if n <= 100 => n as u32,
                _ => 0,
            },
        },
    }
}

/// The encoder's share in percent. `share` is the framebuffer's share of the card, where
/// the card told its size.
pub fn encoder_capacity(share: Option<u32>, setting: Option<&str>) -> (r: u32)
    ensures
        r == encoder_percent(share, setting),
{
    match share {
        Some(s) => s,
        None => match setting {
            None => 0,
            Some(v) => match parse_bounded(trim(v), 100) {
                Some(n) => n as u32,
                None => 0,
            },
        },
    }
}

/// The profile of a choice, in bytes.
pub fn profile_of(choice: &Choice, encoder_capacity: u32) -> (p: Profile)
    requires
        choice.wf(),
    ensures
        p == (Profile {
            policy: choice.policy,
            size: (choice.size * 0x10_0000) as u64,
            reservation: ((choice.size - choice.fb) * 0x10_0000) as u64,
            fb_length: (choice.fb * 0x10_0000) as u64,
            vgpu_type: choice.label,
            encoder_capacity,
        }),
        p.size == p.fb_length + p.reservation,
        p.fb_length > 0,
{
    Profile {
        policy: choice.policy,
        size: choice.size * 0x10_0000,
        reservation: (choice.size - choice.fb) * 0x10_0000,
        fb_length: choice.fb * 0x10_0000,
        vgpu_type: choice.label,
        encoder_capacity,
    }
}

/// The text that `{:?}` prints for a string.
pub uninterp spec fn quoted_text(s: Seq<char>) -> Seq<char>;

/// The `Debug` form of a string: quoted, with what cannot be printed escaped.
#[verifier::external_body]
fn quoted(s: &str) -> (r: String)
    ensures
        r@ == quoted_text(s@),
{
    format!("{s:?}")
}

/// A setting that cannot be used, in words.
pub open spec fn fault_words(f: Fault, raw: Seq<char>, hint: Option<u64>) -> Seq<char> {
    f.setting.variable()@ + "="@ + quoted_text(raw) + (if f.too_big {
        " exceeds the byte counter range"@
    } else {
        " is not a number of MiB"@ + (match hint {
            Some(m) => " -- write "@ + decimal(m as nat),
            None => Seq::empty(),
        })
    })
}

impl Fault {
    /// The fault in words. The hint is a size that the text may have meant.
    pub fn text(&self, raw: &str, hint: Option<u64>) -> (s: String)
        ensures
            s@ == fault_words(*self, raw@, hint),
    {
        let mut s: String = String::new();
        s.append(self.setting.name());
        s.append("=");
        s.append(quoted(raw).as_str());
        if self.too_big {
            s.append(" exceeds the byte counter range");
        } else {
            s.append(" is not a number of MiB");
            if let Some(m) = hint {
                s.append(" -- write ");
                s.append(dec(m).as_str());
            }
        }
        assert(s@ =~= fault_words(*self, raw@, hint));
        s
    }
}

impl ProfileError {
    /// The reason in words; nothing for unusable settings, which speak for themselves.
    pub open spec fn words(&self) -> Option<Seq<char>> {
        match self {
            ProfileError::Unusable(_) => None,
            ProfileError::TypeAndOther(t) => Some(
                "LEA_VGPU_TYPE="@ + t@
                    + " is set together with LEA_VRAM_LIMIT_MIB or LEA_VRAM_PROFILE_MIB. Those are three policies for one number. Set exactly one."@,
            ),
            ProfileError::TypeAlone(t) => Some(
                "LEA_VGPU_TYPE="@ + t@
                    + " needs LEA_VGPU_PROFILE_MIB and LEA_VGPU_FB_MIB beside it -- the type is a name in the card's catalogue. `nvrm-client --bin vgpuprofile` prints it; lea_backend_start resolves the name."@,
            ),
            ProfileError::NothingReserved { label, profile, fb } => Some(
                "LEA_VGPU_TYPE="@ + label@ + ": guest FB "@ + decimal(*fb as nat)
                    + " MiB is not smaller than the profile "@ + decimal(*profile as nat)
                    + " MiB, so nothing is reserved. A vGPU profile always keeps something back."@,
            ),
            ProfileError::TwoPolicies { limit, profile } => Some(
                "LEA_VRAM_LIMIT_MIB="@ + decimal(*limit as nat) + " and LEA_VRAM_PROFILE_MIB="@
                    + decimal(*profile as nat)
                    + " are both set. They are two policies for the same number and this backend will not pick one for you: the cap is what the GUEST may allocate, the profile is what the VM may cost the CARD. Set exactly one."@,
            ),
            ProfileError::NothingLeft { reserve, profile } => Some(
                "LEA_VRAM_RESERVE_MIB="@ + decimal(*reserve as nat)
                    + " leaves nothing of LEA_VRAM_PROFILE_MIB="@ + decimal(*profile as nat)
                    + ": the guest would be told it has a card with no memory. Raise the profile or lower the reservation."@,
            ),
        }
    }

    /// The reason in words; nothing for unusable settings.
    pub fn text(&self) -> (r: Option<String>)
        ensures
            match (r, self.words()) {
                (Some(s), Some(want)) => s@ == want,
                (None, None) => true,
                _ => false,
            },
    {
        let mut s: String = String::new();
        match self {
            ProfileError::Unusable(_) => {
                return None;
            },
            ProfileError::TypeAndOther(t) => {
                s.append("LEA_VGPU_TYPE=");
                s.append(t);
                s.append(
                    " is set together with LEA_VRAM_LIMIT_MIB or LEA_VRAM_PROFILE_MIB. Those are three policies for one number. Set exactly one.",
                );
            },
            ProfileError::TypeAlone(t) => {
                s.append("LEA_VGPU_TYPE=");
                s.append(t);
                s.append(
                    " needs LEA_VGPU_PROFILE_MIB and LEA_VGPU_FB_MIB beside it -- the type is a name in the card's catalogue. `nvrm-client --bin vgpuprofile` prints it; lea_backend_start resolves the name.",
                );
            },
            ProfileError::NothingReserved { label, profile, fb } => {
                s.append("LEA_VGPU_TYPE=");
                s.append(label);
                s.append(": guest FB ");
                s.append(dec(*fb).as_str());
                s.append(" MiB is not smaller than the profile ");
                s.append(dec(*profile).as_str());
                s.append(
                    " MiB, so nothing is reserved. A vGPU profile always keeps something back.",
                );
            },
            ProfileError::TwoPolicies { limit, profile } => {
                s.append("LEA_VRAM_LIMIT_MIB=");
                s.append(dec(*limit).as_str());
                s.append(" and LEA_VRAM_PROFILE_MIB=");
                s.append(dec(*profile).as_str());
                s.append(
                    " are both set. They are two policies for the same number and this backend will not pick one for you: the cap is what the GUEST may allocate, the profile is what the VM may cost the CARD. Set exactly one.",
                );
            },
            ProfileError::NothingLeft { reserve, profile } => {
                s.append("LEA_VRAM_RESERVE_MIB=");
                s.append(dec(*reserve).as_str());
                s.append(" leaves nothing of LEA_VRAM_PROFILE_MIB=");
                s.append(dec(*profile).as_str());
                s.append(
                    ": the guest would be told it has a card with no memory. Raise the profile or lower the reservation.",
                );
            },
        }
        assert(s@ =~= self.words()->Some_0);
        Some(s)
    }
}

/// A backend that starts with a policy has exactly one: the type excludes the limit and
/// the profile, and these exclude each other.
pub proof fn law_one_policy_at_most(env: &RawEnv)
    requires
        verdict(env) is Chosen,
    ensures
        match verdict(env)->Chosen_policy {
            Policy::Off => false,
            Policy::Accounting => env.size(Setting::Profile) is None && env.label() is None,
            Policy::Reserved => env.size(Setting::Limit) is None && env.label() is None,
            Policy::Grid => env.size(Setting::Limit) is None && env.size(Setting::Profile) is None,
        },
{
}

/// A policy that reserves leaves some framebuffer and keeps some back; accounting
/// keeps nothing back.
pub proof fn law_a_reservation_leaves_framebuffer(env: &RawEnv)
    requires
        verdict(env) is Chosen,
    ensures
        0 < verdict(env)->Chosen_fb <= verdict(env)->Chosen_size <= MAX_MIB,
        verdict(env)->Chosen_policy == Policy::Accounting <==> verdict(env)->Chosen_fb == verdict(env)->Chosen_size,
{
}

/// How a size is read: blanks and zero are no setting, a number of MiB counts as long as its
/// bytes can be counted, and everything else is a fault.
pub proof fn law_a_size_is_a_number_of_mib(s: &str)
    ensures
        reading(None) == Reading::Unset,
        trimmed(s@).len() == 0 ==> reading(Some(s)) == Reading::Unset,
        trimmed(s@).len() > 0 ==> match parsed(trimmed(s@)) {
            None => reading(Some(s)) == Reading::NotNumber,
            Some(n) => {
                &&& n == 0 ==> reading(Some(s)) == Reading::Unset
                &&& n > 0 && n * 0x10_0000 <= u64::MAX ==> reading(Some(s)) == Reading::Mib(
                    n as u64,
                )
                &&& n * 0x10_0000 > u64::MAX && n <= u64::MAX ==> reading(Some(s))
                    == Reading::TooBig
                &&& n > u64::MAX ==> reading(Some(s)) == Reading::NotNumber
            },
        },
{
}

/// Each size is read from the text that was given for it.
pub proof fn law_each_size_has_its_own_setting(env: &RawEnv, n: u64)
    ensures
        env.size(Setting::Limit) == Some(n) <==> reading(env.limit) == Reading::Mib(n),
        env.size(Setting::Profile) == Some(n) <==> reading(env.profile) == Reading::Mib(n),
        env.size(Setting::Reserve) == Some(n) <==> reading(env.reserve) == Reading::Mib(n),
        env.size(Setting::VgpuProfile) == Some(n) <==> reading(env.vgpu_profile) == Reading::Mib(n),
        env.size(Setting::VgpuFb) == Some(n) <==> reading(env.vgpu_fb) == Reading::Mib(n),
        env.vgpu_type is None ==> env.label() is None,
        env.vgpu_type matches Some(t) ==> match env.label() {
            Some(l) => l == trimmed(t@) && l.len() > 0,
            None => trimmed(t@).len() == 0,
        },
{
}

/// Whether every size can be used.
pub open spec fn usable(env: &RawEnv) -> bool {
    forall|s: Setting| !(reading(#[trigger] env.given(s)) is TooBig) && !(reading(
        env.given(s),
    ) is NotNumber)
}

/// A backend starts only where every size can be used; where it does not, the faults name
/// every setting that cannot be used, and no other.
#[verifier::rlimit(50)]
pub proof fn law_every_unusable_setting_is_named(
    env: &RawEnv,
    r: Result<(Option<Choice>, Vec<Note>), ProfileError>,
    s: Setting,
)
    requires
        agrees(r, env),
    ensures
        r matches Err(ProfileError::Unusable(v)) ==> {
            &&& !usable(env)
            &&& reading(env.given(s)) is TooBig <==> v@.contains(
                Fault { setting: s, too_big: true },
            )
            &&& reading(env.given(s)) is NotNumber <==> v@.contains(
                Fault { setting: s, too_big: false },
            )
        },
        !(r matches Err(ProfileError::Unusable(_))) ==> usable(env),
{
    lemma_faults_of(env, s, true);
    lemma_faults_of(env, s, false);
    if faults(env).len() == 0 {
        assert forall|q: Setting|
            !(reading(#[trigger] env.given(q)) is TooBig) && !(reading(
                env.given(q),
            ) is NotNumber) by {
            lemma_faults_of(env, q, true);
            lemma_faults_of(env, q, false);
        }
    } else {
        let f = faults(env)[0];
        lemma_faults_of(env, f.setting, f.too_big);
        assert(faults(env).contains(f));
        assert(!usable(env)) by {
            if usable(env) {
                assert(!(reading(env.given(f.setting)) is TooBig));
            }
        }
    }
}

proof fn lemma_faults_of(env: &RawEnv, s: Setting, too_big: bool)
    ensures
        faults(env).contains(Fault { setting: s, too_big }) <==> (if too_big {
            reading(env.given(s)) is TooBig
        } else {
            reading(env.given(s)) is NotNumber
        }),
{
    let f = Fault { setting: s, too_big };
    let a = fault_of(env, Setting::Limit);
    let b = fault_of(env, Setting::Profile);
    let c = fault_of(env, Setting::Reserve);
    let d = fault_of(env, Setting::VgpuProfile);
    let e = fault_of(env, Setting::VgpuFb);
    lemma_in_either(a, b, f);
    lemma_in_either(a + b, c, f);
    lemma_in_either(a + b + c, d, f);
    lemma_in_either(a + b + c + d, e, f);
    assert forall|q: Setting| #[trigger] fault_of(env, q).contains(f) <==> (q == s && (if too_big {
        reading(env.given(s)) is TooBig
    } else {
        reading(env.given(s)) is NotNumber
    })) by {
        let l = fault_of(env, q);
        if l.len() > 0 {
            assert(l[0].setting == q);
            assert(l.contains(l[0]));
        }
    }
}

proof fn lemma_in_either(a: Seq<Fault>, b: Seq<Fault>, f: Fault)
    ensures
        (a + b).contains(f) <==> a.contains(f) || b.contains(f),
{
    let s = a + b;
    if a.contains(f) {
        let i = a.index_of(f);
        assert(s[i] == f);
    }
    if b.contains(f) {
        let i = b.index_of(f);
        assert(s[a.len() + i] == f);
    }
    if s.contains(f) {
        let i = s.index_of(f);
        if i < a.len() {
            assert(a[i] == f);
        } else {
            assert(b[i - a.len()] == f);
        }
    }
}

/// A profile of `p` MiB with neither a type nor a limit: the guest gets what the reservation
/// leaves of it, whatever the reservation is; one that leaves nothing is refused. Only
/// where no reservation is set does the default of 256 MiB stand in for it.
#[verifier::rlimit(50)]
pub proof fn law_a_reservation_is_kept_as_it_was_set(
    env: &RawEnv,
    p: u64,
    r: Result<(Option<Choice>, Vec<Note>), ProfileError>,
)
    requires
        agrees(r, env),
        usable(env),
        env.label() is None,
        env.size(Setting::Limit) is None,
        env.size(Setting::Profile) == Some(p),
    ensures
        env.size(Setting::Reserve) matches Some(k) ==> (if k < p {
            r matches Ok((Some(c), _)) && c.policy == Policy::Reserved && c.size == p && c.fb == p
                - k && c.label@.len() == 0
        } else {
            r matches Err(ProfileError::NothingLeft { reserve, profile }) && reserve == k
                && profile == p
        }),
        env.size(Setting::Reserve) is None ==> (if p > 256 {
            r matches Ok((Some(c), _)) && c.policy == Policy::Reserved && c.size == p && c.fb == p
                - 256 && c.label@.len() == 0
        } else {
            r matches Err(ProfileError::NothingLeft { reserve, profile }) && reserve == 256
                && profile == p
        }),
{
    lemma_usable_has_no_faults(env);
    reveal_strlit("");
}

proof fn lemma_usable_has_no_faults(env: &RawEnv)
    requires
        usable(env),
    ensures
        faults(env).len() == 0,
{
    assert(fault_of(env, Setting::Limit).len() == 0);
    assert(fault_of(env, Setting::Profile).len() == 0);
    assert(fault_of(env, Setting::Reserve).len() == 0);
    assert(fault_of(env, Setting::VgpuProfile).len() == 0);
    assert(fault_of(env, Setting::VgpuFb).len() == 0);
}

/// The other policies: a limit alone is what the guest gets, a type takes its own two sizes,
/// which must leave something reserved, and policies do not mix. Nothing set is no policy.
#[verifier::rlimit(50)]
pub proof fn law_each_policy_takes_its_own_sizes(
    env: &RawEnv,
    r: Result<(Option<Choice>, Vec<Note>), ProfileError>,
)
    requires
        agrees(r, env),
        usable(env),
    ensures
        ({
            let limit = env.size(Setting::Limit);
            let size = env.size(Setting::Profile);
            let whole = env.size(Setting::VgpuProfile);
            let part = env.size(Setting::VgpuFb);
            match (env.label(), limit, size) {
                (None, None, None) => r matches Ok((None, _)),
                (None, Some(l), None) => r matches Ok((Some(c), _)) && c.policy
                    == Policy::Accounting && c.size == l && c.fb == l && c.label@.len() == 0,
                (None, Some(l), Some(p)) => r matches Err(
                    ProfileError::TwoPolicies { limit: a, profile: b },
                ) && a == l && b == p,
                (None, None, Some(_)) => true,
                (Some(name), None, None) => match (whole, part) {
                    (Some(w), Some(f)) => if f < w {
                        r matches Ok((Some(c), notes)) && c.policy == Policy::Grid && c.size == w
                            && c.fb == f && c.label@ == name && notes@.len() == 0
                    } else {
                        r matches Err(ProfileError::NothingReserved { label, profile, fb })
                            && label@ == name && profile == w && fb == f
                    },
                    _ => r matches Err(ProfileError::TypeAlone(t)) && t@ == name,
                },
                (Some(name), _, _) => r matches Err(ProfileError::TypeAndOther(t)) && t@ == name,
            }
        }),
{
    lemma_usable_has_no_faults(env);
    reveal_strlit("");
}

/// The remarks: sizes of a type do nothing without a type, a reservation does nothing without
/// a profile, and nothing else is remarked.
pub proof fn law_settings_that_do_nothing_are_remarked(
    env: &RawEnv,
    r: Result<(Option<Choice>, Vec<Note>), ProfileError>,
)
    requires
        agrees(r, env),
    ensures
        r matches Ok((_, notes)) ==> {
            let sizes = env.label() is None && (env.size(Setting::VgpuProfile) is Some || env.size(
                Setting::VgpuFb,
            ) is Some);
            let idle = env.label() is None && env.size(Setting::Profile) is None && env.size(
                Setting::Reserve,
            ) is Some;
            &&& notes@.contains(Note::SizesWithoutType) <==> sizes
            &&& notes@.contains(Note::ReserveWithoutProfile) <==> idle
            &&& notes@.len() == (if sizes {
                1int
            } else {
                0
            }) + (if idle {
                1int
            } else {
                0
            })
        },
{
    if let Ok((_, notes)) = r {
        let t = type_notes(env);
        if t.len() > 0 {
            assert(t[0] == Note::SizesWithoutType);
        }
        let s = notes@;
        if s.len() > 0 {
            assert(s.contains(s[0]));
        }
        if s.len() > 1 {
            assert(s.contains(s[1]));
        }
    }
}

/// The encoder's share: what the card gave, else a setting of at most a hundred.
pub proof fn law_the_encoder_share_is_a_percentage(
    share: Option<u32>,
    setting: Option<&str>,
    n: nat,
)
    ensures
        share matches Some(s) ==> encoder_percent(share, setting) == s,
        share is None ==> encoder_percent(share, setting) <= 100,
        share is None && setting is None ==> encoder_percent(share, setting) == 0,
        share is None ==> (setting matches Some(v) ==> parsed(trimmed(v@)) == Some(n)
            ==> encoder_percent(share, setting) == (if n <= 100 {
            n as int
        } else {
            0
        })),
        share is None ==> (setting matches Some(v) ==> parsed(trimmed(v@)) is None
            ==> encoder_percent(share, setting) == 0),
{
}

/// A reason tells the numbers that it is about, each under its own setting.
pub proof fn law_a_reason_tells_its_numbers(e: &ProfileError)
    ensures
        e is Unusable <==> e.words() is None,
        e matches ProfileError::TwoPolicies { limit, profile } ==> (
        "LEA_VRAM_LIMIT_MIB="@ + decimal(*limit as nat) + " and LEA_VRAM_PROFILE_MIB="@ + decimal(
            *profile as nat,
        )).is_prefix_of(e.words()->Some_0),
        e matches ProfileError::NothingLeft { reserve, profile } ==> (
        "LEA_VRAM_RESERVE_MIB="@ + decimal(*reserve as nat)
            + " leaves nothing of LEA_VRAM_PROFILE_MIB="@ + decimal(
            *profile as nat,
        )).is_prefix_of(e.words()->Some_0),
        e matches ProfileError::NothingReserved { label, profile, fb } ==> (
        "LEA_VGPU_TYPE="@ + label@ + ": guest FB "@ + decimal(*fb as nat)
            + " MiB is not smaller than the profile "@ + decimal(*profile as nat)).is_prefix_of(
            e.words()->Some_0,
        ),
        e matches ProfileError::TypeAndOther(t) ==> ("LEA_VGPU_TYPE="@ + t@).is_prefix_of(
            e.words()->Some_0,
        ),
        e matches ProfileError::TypeAlone(t) ==> ("LEA_VGPU_TYPE="@ + t@).is_prefix_of(
            e.words()->Some_0,
        ),
{
    let w = e.words()->Some_0;
    match e {
        ProfileError::Unusable(_) => {},
        ProfileError::TwoPolicies { limit, profile } => {
            let p = "LEA_VRAM_LIMIT_MIB="@ + decimal(*limit as nat)
                + " and LEA_VRAM_PROFILE_MIB="@ + decimal(*profile as nat);
            assert(p =~= w.subrange(0, p.len() as int));
        },
        ProfileError::NothingLeft { reserve, profile } => {
            let p = "LEA_VRAM_RESERVE_MIB="@ + decimal(*reserve as nat)
                + " leaves nothing of LEA_VRAM_PROFILE_MIB="@ + decimal(*profile as nat);
            assert(p =~= w.subrange(0, p.len() as int));
        },
        ProfileError::NothingReserved { label, profile, fb } => {
            let p = "LEA_VGPU_TYPE="@ + label@ + ": guest FB "@ + decimal(*fb as nat)
                + " MiB is not smaller than the profile "@ + decimal(*profile as nat);
            assert(p =~= w.subrange(0, p.len() as int));
        },
        ProfileError::TypeAndOther(t) => {
            let p = "LEA_VGPU_TYPE="@ + t@;
            assert(p =~= w.subrange(0, p.len() as int));
        },
        ProfileError::TypeAlone(t) => {
            let p = "LEA_VGPU_TYPE="@ + t@;
            assert(p =~= w.subrange(0, p.len() as int));
        },
    }
}

} // verus!
