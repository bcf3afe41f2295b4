# vhost-user-nvrm

The host side of a paravirtual NVIDIA device. One process serves one virtual machine: it
validates what the guest sends, forwards it to the host driver on mirrored device nodes, and
answers in the driver's words or, where a rule of the machine says so, in its own.

`src/` is a Verus library that holds the rules. It opens no file and calls no driver: a
function takes what the system said and says what the system has to do next. `app/` is the
daemon around it: it talks to the driver, the VMM and the environment, looks requests up in the
driver's generated tables, and keeps the frame rate, which is a floating-point number.

## Modules

| Module | What it states |
|---|---|
| `wire`, `abi` | Messages, the numbers of a driver release, what the tables say of one request |
| `bytes`, `text`, `seqs`, `table`, `errno`, `guest_words` | Words in buffers, digits and trimming, ordered tables, checked guest arithmetic |
| `request_shape` | Which requests have the layout that the host's tables describe |
| `client_policy` | Which requests name a client of the host itself |
| `plan`, `prepare` | From a message to a request that can be sent, step by step |
| `execute` | From the driver's answer to the guest's, and what stays behind |
| `mediate`, `grid`, `profile`, `vram` | What the guest is told of the card, the memory policy and its ledger |
| `accounts` | What the books of all sessions come to, to the byte |
| `events`, `waiters`, `polls` | Callbacks that become OS events, one-shot waiters, what is watched |
| `host_pool`, `pool_state` | Guest pages that the driver pins: budget, layout, registration, release |
| `mirror`, `session`, `window`, `nvrm` | Tokens, one process, the shared window, the device |
| `caps` | The capability that the daemon drops |

The public functions named `law_…` state what holds of several functions together.

## The daemon

`app/main.rs` takes `--nvrm <socket>`. `app/driver.rs` holds all that comes from the driver's
generated bindings and the wire's encoding; `app/device.rs` is the virtio device,
`app/session_io.rs` one session's calls, `app/pools.rs` pinned pages, `app/poller.rs` the thread
that waits for waiters, `app/settings.rs` the environment.
