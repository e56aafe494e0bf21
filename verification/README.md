# zboot

Boot environments on ZFS root pools: an operator's tool (`zboot`) and the boot
loader's program (`zboot-boot`), with their logic verified in Verus.

A boot environment is a dataset `<pool>/ROOT/<name>` with `zboot:be=true`. The
tool forks, switches, renames, drops and replicates them, binds other datasets
to them, and installs them on fresh disks; the loader shows them in a menu and
starts the kernel of the one that was chosen.

## Layout

- `src/` is the library. It never touches the machine by itself: everything goes
  through a `Runner` (`src/sub.rs`), which is handed one request at a time and
  brings back the answer. The contract of a verb says which requests it makes,
  in what order, and what it returns, as a function of the answers.
  - `sub.rs` the host and the commands run on it; `script.rs` a host that plays
    a list of prepared answers
  - `text.rs`, `order.rs`, `version.rs`, `paths.rs`, `tree.rs` plain values
  - `model.rs` pools, boot environments, bindings, pair pointers, and how they
    are read and written
  - `zfs_ops.rs`, `pools.rs`, `state.rs`, `walk.rs`, `be_arg.rs`, `facts.rs`,
    `mounts.rs` what the verbs share
  - `effects.rs` what a run of commands leaves alone and what it leaves behind
  - `cmd/` one module for each verb
  - `boot/` the loader: discovery, menu, shell, completion, kexec
- `tests/` runs the library against hosts that play a part.
- `app/` is the program round the library: arguments, terminal, files,
  processes.

## Reading the contracts

`f_does(w, ..)` is a spec function that says what the function `f` does in the
world `w`: the world it leaves and what it returns. Functions whose names begin
with `law_` state what holds of whole operations, such as that a refused push
has changed nothing, or that a drop destroys nothing but its target.

Two items are believed rather than proved: the quoting of text by the standard
library (`text::quoted`), and the SHA-256 digest of the `sha2` crate
(`cmd::deploy::plan::sha256`). Their contracts name what they return and say no
more of it than their documentation does.
