//! Mapping between decoded protocol values and commands, and between
//! responses and protocol values: the command grammar of the wire format.
//!
//! Command names and option tokens are matched case-insensitively. Names are
//! spelled here as byte sequences, since the wire format works on bytes.

use vstd::prelude::*;

use crate::codecs::resp2::{
    enc, lemma_enc_dec, models, spec_read, spec_read_elems, wf_model, ElemsOutcome, ReadOutcome,
    Value, ValueModel, lemma_models_index, lemma_read_bounds, lemma_read_elems_bounds,
    read_value_at,
};
use crate::codecs::text::{i_repr, is_i64_text, is_utf8, int_text_val, lower, parse_i64, eq_lower,
    lemma_repr_round_trip, lemma_u_repr_len, render_i64};
use crate::codecs::DecodeError;
use crate::protocol::{Command, CommandModel, Conditional, Error, Response, ResponseModel,
    Synchronicity};

verus! {

/// The name `ping`.
pub open spec fn lit_ping() -> Seq<u8> {
    seq![112u8, 105u8, 110u8, 103u8]
}

/// The name `get`.
pub open spec fn lit_get() -> Seq<u8> {
    seq![103u8, 101u8, 116u8]
}

/// The name `set`.
pub open spec fn lit_set() -> Seq<u8> {
    seq![115u8, 101u8, 116u8]
}

/// The name `del`.
pub open spec fn lit_del() -> Seq<u8> {
    seq![100u8, 101u8, 108u8]
}

/// The name `exists`.
pub open spec fn lit_exists() -> Seq<u8> {
    seq![101u8, 120u8, 105u8, 115u8, 116u8, 115u8]
}

/// The name `expire`.
pub open spec fn lit_expire() -> Seq<u8> {
    seq![101u8, 120u8, 112u8, 105u8, 114u8, 101u8]
}

/// The name `persist`.
pub open spec fn lit_persist() -> Seq<u8> {
    seq![112u8, 101u8, 114u8, 115u8, 105u8, 115u8, 116u8]
}

/// The name `flushall`.
pub open spec fn lit_flushall() -> Seq<u8> {
    seq![102u8, 108u8, 117u8, 115u8, 104u8, 97u8, 108u8, 108u8]
}

/// The name `flushdb`.
pub open spec fn lit_flushdb() -> Seq<u8> {
    seq![102u8, 108u8, 117u8, 115u8, 104u8, 100u8, 98u8]
}

/// The option `ex`.
pub open spec fn lit_ex() -> Seq<u8> {
    seq![101u8, 120u8]
}

/// The option `px`.
pub open spec fn lit_px() -> Seq<u8> {
    seq![112u8, 120u8]
}

/// The option `nx`.
pub open spec fn lit_nx() -> Seq<u8> {
    seq![110u8, 120u8]
}

/// The option `xx`.
pub open spec fn lit_xx() -> Seq<u8> {
    seq![120u8, 120u8]
}

/// The option `sync`.
pub open spec fn lit_sync() -> Seq<u8> {
    seq![115u8, 121u8, 110u8, 99u8]
}

/// The option `async`.
pub open spec fn lit_async() -> Seq<u8> {
    seq![97u8, 115u8, 121u8, 110u8, 99u8]
}

/// The largest number of whole seconds whose millisecond count fits in 64
/// unsigned bits.
pub open spec fn max_seconds() -> int {
    18446744073709551
}

/// The value of a seconds field: a decimal integer, non-negative, and small
/// enough that the millisecond count fits in 64 unsigned bits.
pub open spec fn spec_secs(t: Seq<u8>) -> Result<u64, DecodeError> {
    if !is_utf8(t) {
        Err(DecodeError::InvalidString)
    } else if !is_i64_text(t) {
        Err(DecodeError::InvalidInteger)
    } else if int_text_val(t) < 0 || int_text_val(t) > max_seconds() {
        Err(DecodeError::InvalidInteger)
    } else {
        Ok((int_text_val(t) * 1000) as u64)
    }
}

/// The value of a milliseconds field: a decimal integer, non-negative.
pub open spec fn spec_millis(t: Seq<u8>) -> Result<u64, DecodeError> {
    if !is_utf8(t) {
        Err(DecodeError::InvalidString)
    } else if !is_i64_text(t) {
        Err(DecodeError::InvalidInteger)
    } else if int_text_val(t) < 0 {
        Err(DecodeError::InvalidInteger)
    } else {
        Ok(int_text_val(t) as u64)
    }
}

/// Fold the SET options from argument `i` on over a TTL and a guard: `EX
/// seconds`, `PX milliseconds`, `NX`, `XX`, in any order, a later option
/// overriding an earlier one of the same kind.
pub open spec fn spec_set_opts(
    args: Seq<Seq<u8>>,
    i: int,
    ttl: Option<u64>,
    cond: Conditional,
) -> Result<(Option<u64>, Conditional), DecodeError>
    decreases args.len() - i,
{
    if i < 0 || i >= args.len() {
        Ok((ttl, cond))
    } else {
        let tok = lower(args[i]);
        if tok == lit_ex() {
            if i + 1 >= args.len() {
                Err(DecodeError::UnexpectedNumberOfArguments)
            } else {
                match spec_secs(args[i + 1]) {
                    Err(e) => Err(e),
                    Ok(ms) => spec_set_opts(args, i + 2, Some(ms), cond),
                }
            }
        } else if tok == lit_px() {
            if i + 1 >= args.len() {
                Err(DecodeError::UnexpectedNumberOfArguments)
            } else {
                match spec_millis(args[i + 1]) {
                    Err(e) => Err(e),
                    Ok(ms) => spec_set_opts(args, i + 2, Some(ms), cond),
                }
            }
        } else if tok == lit_nx() {
            spec_set_opts(args, i + 1, ttl, Conditional::IfNotExists)
        } else if tok == lit_xx() {
            spec_set_opts(args, i + 1, ttl, Conditional::IfExists)
        } else {
            Err(DecodeError::UnrecognizedCommand)
        }
    }
}

/// The command named by an array of bulk-string arguments. An empty array
/// names no command and is unrecognized.
pub open spec fn spec_command_of(args: Seq<Seq<u8>>) -> Result<CommandModel, DecodeError> {
    if args.len() == 0 {
        Err(DecodeError::UnrecognizedCommand)
    } else {
        let name = lower(args[0]);
        if name == lit_ping() {
            if args.len() == 1 {
                Ok(CommandModel::Ping(None))
            } else if args.len() == 2 {
                Ok(CommandModel::Ping(Some(args[1])))
            } else {
                Err(DecodeError::UnexpectedNumberOfArguments)
            }
        } else if name == lit_get() {
            if args.len() == 2 {
                Ok(CommandModel::Get(args[1]))
            } else {
                Err(DecodeError::UnexpectedNumberOfArguments)
            }
        } else if name == lit_set() {
            if args.len() < 3 {
                Err(DecodeError::UnexpectedNumberOfArguments)
            } else {
                match spec_set_opts(args, 3, None, Conditional::Always) {
                    Err(e) => Err(e),
                    Ok((ttl, cond)) => Ok(CommandModel::Put(args[1], args[2], ttl, cond)),
                }
            }
        } else if name == lit_del() {
            if args.len() >= 2 {
                Ok(CommandModel::Del(args.skip(1)))
            } else {
                Err(DecodeError::UnexpectedNumberOfArguments)
            }
        } else if name == lit_exists() {
            if args.len() >= 2 {
                Ok(CommandModel::Exists(args.skip(1)))
            } else {
                Err(DecodeError::UnexpectedNumberOfArguments)
            }
        } else if name == lit_expire() {
            if args.len() == 3 {
                match spec_secs(args[2]) {
                    Err(e) => Err(e),
                    Ok(ms) => Ok(CommandModel::Expire(args[1], ms)),
                }
            } else {
                Err(DecodeError::UnexpectedNumberOfArguments)
            }
        } else if name == lit_persist() {
            if args.len() == 2 {
                Ok(CommandModel::Persist(args[1]))
            } else {
                Err(DecodeError::UnexpectedNumberOfArguments)
            }
        } else if name == lit_flushall() {
            match spec_flush_mode(args) {
                Err(e) => Err(e),
                Ok(mode) => Ok(CommandModel::FlushAll(mode)),
            }
        } else if name == lit_flushdb() {
            match spec_flush_mode(args) {
                Err(e) => Err(e),
                Ok(mode) => Ok(CommandModel::FlushDB(mode)),
            }
        } else {
            Err(DecodeError::UnrecognizedCommand)
        }
    }
}

/// The synchronicity argument of a flush command: none (synchronous by
/// default), `SYNC`, or `ASYNC`.
pub open spec fn spec_flush_mode(args: Seq<Seq<u8>>) -> Result<Synchronicity, DecodeError> {
    if args.len() == 1 {
        Ok(Synchronicity::Sync)
    } else if args.len() == 2 {
        let a = lower(args[1]);
        if a == lit_sync() {
            Ok(Synchronicity::Sync)
        } else if a == lit_async() {
            Ok(Synchronicity::Async)
        } else {
            Err(DecodeError::UnrecognizedCommand)
        }
    } else {
        Err(DecodeError::UnexpectedNumberOfArguments)
    }
}

/// The payloads of a run of bulk strings, or nothing if any element is not a
/// bulk string.
pub open spec fn bulks_of(ms: Seq<ValueModel>) -> Option<Seq<Seq<u8>>>
    decreases ms.len(),
{
    if ms.len() == 0 {
        Some(Seq::empty())
    } else {
        match ms[0] {
            ValueModel::BulkString(b) => match bulks_of(ms.skip(1)) {
                Some(r) => Some(seq![b] + r),
                None => None,
            },
            _ => None,
        }
    }
}

/// Whether every element of `ms` is a bulk string.
pub open spec fn all_bulks(ms: Seq<ValueModel>) -> bool {
    forall|j: int| 0 <= j < ms.len() ==> #[trigger] ms[j] is BulkString
}

/// `bulks_of` succeeds exactly on runs of bulk strings, and then yields the
/// payloads in order.
pub proof fn lemma_bulks_of(ms: Seq<ValueModel>)
    ensures
        bulks_of(ms) is Some <==> all_bulks(ms),
        bulks_of(ms) matches Some(args) ==> args.len() == ms.len() && forall|j: int|
            0 <= j < ms.len() ==> #[trigger] ms[j] == ValueModel::BulkString(args[j]),
    decreases ms.len(),
{
    if ms.len() > 0 {
        lemma_bulks_of(ms.skip(1));
        if all_bulks(ms) {
            assert forall|j: int| 0 <= j < ms.skip(1).len() implies #[trigger] ms.skip(1)[j]
                is BulkString by {
                assert(ms.skip(1)[j] == ms[j + 1]);
            }
            assert(all_bulks(ms.skip(1)));
        }
        if bulks_of(ms) is Some {
            assert(ms[0] is BulkString);
            let b = ms[0]->BulkString_0;
            let r = bulks_of(ms.skip(1))->Some_0;
            let args = bulks_of(ms)->Some_0;
            assert(args == seq![b] + r);
            assert forall|j: int| 0 <= j < ms.len() implies #[trigger] ms[j]
                == ValueModel::BulkString(args[j]) by {
                if j == 0 {
                    assert(args[0] == b);
                } else {
                    assert(ms.skip(1)[j - 1] == ms[j]);
                    assert(args[j] == r[j - 1]);
                }
            }
        }
    }
}

/// What decoding one command from the front of a buffer gives.
pub enum DecodeOutcome {
    /// A valid but incomplete prefix: wait for more bytes.
    Incomplete,
    /// Malformed bytes, or a value that names no command.
    Fail(DecodeError),
    /// One command, and how many bytes of the buffer it took.
    Decoded(CommandModel, int),
}

/// What decoding one command from the front of a buffer gives: the outcome of
/// reading one value, then requiring an array of bulk strings naming a
/// command.
pub open spec fn spec_decode(s: Seq<u8>) -> DecodeOutcome {
    match spec_read(s) {
        ReadOutcome::Incomplete => DecodeOutcome::Incomplete,
        ReadOutcome::Fail(e) => DecodeOutcome::Fail(e),
        ReadOutcome::Parsed(m, n) => match m {
            ValueModel::Array(ms) => match bulks_of(ms) {
                None => DecodeOutcome::Fail(DecodeError::InvalidDataType),
                Some(args) => match spec_command_of(args) {
                    Err(e) => DecodeOutcome::Fail(e),
                    Ok(c) => DecodeOutcome::Decoded(c, n),
                },
            },
            _ => DecodeOutcome::Fail(DecodeError::InvalidDataType),
        },
    }
}

/// Copy a byte vector.
fn copy_bytes(v: &Vec<u8>) -> (r: Vec<u8>)
    ensures
        r@ == v@,
{
    vstd::slice::slice_to_vec(v.as_slice())
}

/// Parse a seconds field and convert it to milliseconds.
fn secs_field(t: &Vec<u8>) -> (r: Result<u64, DecodeError>)
    ensures
        r == spec_secs(t@),
{
    match parse_i64(t.as_slice()) {
        Err(e) => Err(e),
        Ok(v) => {
            if v < 0 || v > 18446744073709551i64 {
                Err(DecodeError::InvalidInteger)
            } else {
                Ok((v as u64) * 1000)
            }
        },
    }
}

/// Parse a milliseconds field.
fn millis_field(t: &Vec<u8>) -> (r: Result<u64, DecodeError>)
    ensures
        r == spec_millis(t@),
{
    match parse_i64(t.as_slice()) {
        Err(e) => Err(e),
        Ok(v) => {
            if v < 0 {
                Err(DecodeError::InvalidInteger)
            } else {
                Ok(v as u64)
            }
        },
    }
}

/// Fold the SET options of `args` from the fourth argument on.
fn set_options(args: &Vec<Vec<u8>>) -> (r: Result<(Option<u64>, Conditional), DecodeError>)
    ensures
        r == spec_set_opts(args.deep_view(), 3, None, Conditional::Always),
{
    let ghost argsd = args.deep_view();
    let n = args.len();
    proof {
        assert(argsd.len() == n);
    }
    let mut i: usize = 3;
    let mut ttl: Option<u64> = None;
    let mut cond = Conditional::Always;
    while i < n
        invariant
            3 <= i,
            n == args@.len(),
            argsd == args.deep_view(),
            argsd.len() == n,
            spec_set_opts(argsd, 3, None, Conditional::Always) == spec_set_opts(
                argsd,
                i as int,
                ttl,
                cond,
            ),
        decreases n - i,
    {
        proof {
            assert(argsd[i as int] == args@[i as int]@) by {
                assert(args@[i as int].deep_view() =~= args@[i as int]@);
            }
        }
        let pat_ex: Vec<u8> = vec![101, 120];
        let pat_px: Vec<u8> = vec![112, 120];
        let pat_nx: Vec<u8> = vec![110, 120];
        let pat_xx: Vec<u8> = vec![120, 120];
        proof {
            assert(pat_ex@ =~= lit_ex());
            assert(pat_px@ =~= lit_px());
            assert(pat_nx@ =~= lit_nx());
            assert(pat_xx@ =~= lit_xx());
        }
        if eq_lower(args[i].as_slice(), pat_ex.as_slice()) {
            if i + 1 >= n {
                return Err(DecodeError::UnexpectedNumberOfArguments);
            }
            proof {
                assert(argsd[i + 1] == args@[i + 1]@) by {
                    assert(args@[i + 1].deep_view() =~= args@[i + 1]@);
                }
            }
            match secs_field(&args[i + 1]) {
                Err(e) => {
                    return Err(e);
                },
                Ok(ms) => {
                    ttl = Some(ms);
                    i = i + 2;
                },
            }
        } else if eq_lower(args[i].as_slice(), pat_px.as_slice()) {
            if i + 1 >= n {
                return Err(DecodeError::UnexpectedNumberOfArguments);
            }
            proof {
                assert(argsd[i + 1] == args@[i + 1]@) by {
                    assert(args@[i + 1].deep_view() =~= args@[i + 1]@);
                }
            }
            match millis_field(&args[i + 1]) {
                Err(e) => {
                    return Err(e);
                },
                Ok(ms) => {
                    ttl = Some(ms);
                    i = i + 2;
                },
            }
        } else if eq_lower(args[i].as_slice(), pat_nx.as_slice()) {
            cond = Conditional::IfNotExists;
            i = i + 1;
        } else if eq_lower(args[i].as_slice(), pat_xx.as_slice()) {
            cond = Conditional::IfExists;
            i = i + 1;
        } else {
            return Err(DecodeError::UnrecognizedCommand);
        }
    }
    Ok((ttl, cond))
}

/// Copy every argument after the first: the keys of a multi-key command.
fn copy_tail(args: &Vec<Vec<u8>>) -> (r: Vec<Vec<u8>>)
    requires
        args@.len() >= 1,
    ensures
        r.deep_view() == args.deep_view().skip(1),
{
    let n = args.len();
    let mut out: Vec<Vec<u8>> = Vec::new();
    let mut i: usize = 1;
    while i < n
        invariant
            1 <= i <= n,
            n == args@.len(),
            out@.len() == i - 1,
            forall|j: int| 0 <= j < i - 1 ==> #[trigger] out@[j]@ == args@[j + 1]@,
        decreases n - i,
    {
        out.push(copy_bytes(&args[i]));
        i = i + 1;
    }
    proof {
        assert(out.deep_view() =~= args.deep_view().skip(1)) by {
            assert forall|j: int| 0 <= j < n - 1 implies out.deep_view()[j]
                == args.deep_view().skip(1)[j] by {
                assert(out.deep_view()[j] == out@[j].deep_view());
                assert(out@[j].deep_view() =~= out@[j]@);
                assert(args.deep_view()[j + 1] == args@[j + 1].deep_view());
                assert(args@[j + 1].deep_view() =~= args@[j + 1]@);
            }
        }
    }
    out
}

/// The synchronicity argument of a flush command.
fn flush_mode(args: &Vec<Vec<u8>>) -> (r: Result<Synchronicity, DecodeError>)
    requires
        args@.len() >= 1,
    ensures
        r == spec_flush_mode(args.deep_view()),
{
    let n = args.len();
    proof {
        assert(args.deep_view().len() == n);
    }
    if n == 1 {
        Ok(Synchronicity::Sync)
    } else if n == 2 {
        proof {
            assert(args.deep_view()[1] == args@[1]@) by {
                assert(args@[1].deep_view() =~= args@[1]@);
            }
        }
        let pat_sync: Vec<u8> = vec![115, 121, 110, 99];
        let pat_async: Vec<u8> = vec![97, 115, 121, 110, 99];
        proof {
            assert(pat_sync@ =~= lit_sync());
            assert(pat_async@ =~= lit_async());
        }
        if eq_lower(args[1].as_slice(), pat_sync.as_slice()) {
            Ok(Synchronicity::Sync)
        } else if eq_lower(args[1].as_slice(), pat_async.as_slice()) {
            Ok(Synchronicity::Async)
        } else {
            Err(DecodeError::UnrecognizedCommand)
        }
    } else {
        Err(DecodeError::UnexpectedNumberOfArguments)
    }
}

/// The command named by an array of bulk-string arguments.
pub fn command_of_args(args: &Vec<Vec<u8>>) -> (r: Result<Command, DecodeError>)
    ensures
        match spec_command_of(args.deep_view()) {
            Ok(c) => r matches Ok(cmd) && cmd.model() == c,
            Err(e) => r matches Err(e2) && e2 == e,
        },
{
    let ghost argsd = args.deep_view();
    let n = args.len();
    proof {
        assert(argsd.len() == n);
        if n >= 1 {
            assert(argsd[0] == args@[0]@) by {
                assert(args@[0].deep_view() =~= args@[0]@);
            }
        }
        if n >= 2 {
            assert(argsd[1] == args@[1]@) by {
                assert(args@[1].deep_view() =~= args@[1]@);
            }
        }
        if n >= 3 {
            assert(argsd[2] == args@[2]@) by {
                assert(args@[2].deep_view() =~= args@[2]@);
            }
        }
    }
    if n == 0 {
        return Err(DecodeError::UnrecognizedCommand);
    }
    let pat_ping: Vec<u8> = vec![112, 105, 110, 103];
    let pat_get: Vec<u8> = vec![103, 101, 116];
    let pat_set: Vec<u8> = vec![115, 101, 116];
    let pat_del: Vec<u8> = vec![100, 101, 108];
    let pat_exists: Vec<u8> = vec![101, 120, 105, 115, 116, 115];
    let pat_expire: Vec<u8> = vec![101, 120, 112, 105, 114, 101];
    let pat_persist: Vec<u8> = vec![112, 101, 114, 115, 105, 115, 116];
    let pat_flushall: Vec<u8> = vec![102, 108, 117, 115, 104, 97, 108, 108];
    let pat_flushdb: Vec<u8> = vec![102, 108, 117, 115, 104, 100, 98];
    proof {
        assert(pat_ping@ =~= lit_ping());
        assert(pat_get@ =~= lit_get());
        assert(pat_set@ =~= lit_set());
        assert(pat_del@ =~= lit_del());
        assert(pat_exists@ =~= lit_exists());
        assert(pat_expire@ =~= lit_expire());
        assert(pat_persist@ =~= lit_persist());
        assert(pat_flushall@ =~= lit_flushall());
        assert(pat_flushdb@ =~= lit_flushdb());
    }
    let name = &args[0];
    if eq_lower(name.as_slice(), pat_ping.as_slice()) {
        if n == 1 {
            Ok(Command::Ping(None))
        } else if n == 2 {
            Ok(Command::Ping(Some(copy_bytes(&args[1]))))
        } else {
            Err(DecodeError::UnexpectedNumberOfArguments)
        }
    } else if eq_lower(name.as_slice(), pat_get.as_slice()) {
        if n == 2 {
            Ok(Command::Get(copy_bytes(&args[1])))
        } else {
            Err(DecodeError::UnexpectedNumberOfArguments)
        }
    } else if eq_lower(name.as_slice(), pat_set.as_slice()) {
        if n < 3 {
            Err(DecodeError::UnexpectedNumberOfArguments)
        } else {
            match set_options(args) {
                Err(e) => Err(e),
                Ok((ttl, cond)) => Ok(
                    Command::Put(copy_bytes(&args[1]), copy_bytes(&args[2]), ttl, cond),
                ),
            }
        }
    } else if eq_lower(name.as_slice(), pat_del.as_slice()) {
        if n >= 2 {
            Ok(Command::Del(copy_tail(args)))
        } else {
            Err(DecodeError::UnexpectedNumberOfArguments)
        }
    } else if eq_lower(name.as_slice(), pat_exists.as_slice()) {
        if n >= 2 {
            Ok(Command::Exists(copy_tail(args)))
        } else {
            Err(DecodeError::UnexpectedNumberOfArguments)
        }
    } else if eq_lower(name.as_slice(), pat_expire.as_slice()) {
        if n == 3 {
            match secs_field(&args[2]) {
                Err(e) => Err(e),
                Ok(ms) => Ok(Command::Expire(copy_bytes(&args[1]), ms)),
            }
        } else {
            Err(DecodeError::UnexpectedNumberOfArguments)
        }
    } else if eq_lower(name.as_slice(), pat_persist.as_slice()) {
        if n == 2 {
            Ok(Command::Persist(copy_bytes(&args[1])))
        } else {
            Err(DecodeError::UnexpectedNumberOfArguments)
        }
    } else if eq_lower(name.as_slice(), pat_flushall.as_slice()) {
        match flush_mode(args) {
            Err(e) => Err(e),
            Ok(mode) => Ok(Command::FlushAll(mode)),
        }
    } else if eq_lower(name.as_slice(), pat_flushdb.as_slice()) {
        match flush_mode(args) {
            Err(e) => Err(e),
            Ok(mode) => Ok(Command::FlushDB(mode)),
        }
    } else {
        Err(DecodeError::UnrecognizedCommand)
    }
}

/// Check that every element of a decoded array is a bulk string, and collect
/// the payloads.
fn bulk_args(elems: &Vec<Value>) -> (r: Result<Vec<Vec<u8>>, DecodeError>)
    ensures
        match bulks_of(models(*elems, 0)) {
            Some(args) => r matches Ok(v) && v.deep_view() == args,
            None => r == Err::<Vec<Vec<u8>>, DecodeError>(DecodeError::InvalidDataType),
        },
{
    let ghost ms = models(*elems, 0);
    proof {
        crate::codecs::resp2::lemma_models_index(*elems, 0);
        lemma_bulks_of(ms);
    }
    let n = elems.len();
    let mut out: Vec<Vec<u8>> = Vec::new();
    let mut i: usize = 0;
    while i < n
        invariant
            i <= n,
            n == elems@.len(),
            ms == models(*elems, 0),
            ms.len() == n,
            forall|j: int| 0 <= j < n ==> ms[j] == elems@[j].model(),
            out@.len() == i,
            forall|j: int| 0 <= j < i ==> (#[trigger] ms[j] matches ValueModel::BulkString(b)
                && out@[j]@ == b),
        decreases n - i,
    {
        match &elems[i] {
            Value::BulkString(b) => {
                out.push(copy_bytes(b));
            },
            _ => {
                proof {
                    assert(!(ms[i as int] is BulkString));
                    assert(!all_bulks(ms));
                    lemma_bulks_of(ms);
                }
                return Err(DecodeError::InvalidDataType);
            },
        }
        i = i + 1;
    }
    proof {
        assert(all_bulks(ms)) by {
            assert forall|j: int| 0 <= j < ms.len() implies #[trigger] ms[j] is BulkString by {}
        }
        lemma_bulks_of(ms);
        let args = bulks_of(ms)->Some_0;
        assert(out.deep_view() =~= args) by {
            assert forall|j: int| 0 <= j < n implies out.deep_view()[j] == args[j] by {
                assert(out.deep_view()[j] == out@[j].deep_view());
                assert(out@[j].deep_view() =~= out@[j]@);
                assert(ms[j] == ValueModel::BulkString(args[j]));
            }
        }
    }
    Ok(out)
}

impl Value {
    /// Decode one command from the front of `buffer`: read one protocol
    /// value, which must be an array of bulk strings naming a command. On
    /// success, consume exactly the bytes of that value; on an incomplete
    /// prefix or any error, leave the buffer unchanged.
    pub fn decode_from(buffer: &mut Vec<u8>) -> (r: Result<Option<Command>, DecodeError>)
        ensures
            match spec_decode(old(buffer)@) {
                DecodeOutcome::Incomplete => r == Ok::<Option<Command>, DecodeError>(None)
                    && final(buffer)@ == old(buffer)@,
                DecodeOutcome::Fail(e) => (r matches Err(e2) && e2 == e)
                    && final(buffer)@ == old(buffer)@,
                DecodeOutcome::Decoded(c, used) => (r matches Ok(Some(cmd)) && cmd.model() == c)
                    && final(buffer)@ == old(buffer)@.skip(used),
            },
    {
        proof {
            assert(buffer@.skip(0) =~= buffer@);
        }
        let step = read_value_at(buffer.as_slice(), 0);
        proof {
            lemma_read_bounds(buffer@);
        }
        match step {
            Err(e) => Err(e),
            Ok(None) => Ok(None),
            Ok(Some((v, end))) => {
                match v {
                    Value::Array(elems) => {
                        match bulk_args(&elems) {
                            Err(e) => Err(e),
                            Ok(args) => {
                                match command_of_args(&args) {
                                    Err(e) => Err(e),
                                    Ok(cmd) => {
                                        let tail = buffer.split_off(end);
                                        *buffer = tail;
                                        Ok(Some(cmd))
                                    },
                                }
                            },
                        }
                    },
                    Value::SimpleString(_) => Err(DecodeError::InvalidDataType),
                    Value::Error(_) => Err(DecodeError::InvalidDataType),
                    Value::Integer(_) => Err(DecodeError::InvalidDataType),
                    Value::BulkString(_) => Err(DecodeError::InvalidDataType),
                    Value::Nil => Err(DecodeError::InvalidDataType),
                }
            },
        }
    }
}

/// The reply `OK`.
pub open spec fn lit_okay() -> Seq<u8> {
    seq![79u8, 75u8]
}

/// The reply `PONG`.
pub open spec fn lit_pong() -> Seq<u8> {
    seq![80u8, 79u8, 78u8, 71u8]
}

/// The error line `WRONGTYPE Operation against a key holding the wrong kind
/// of value`.
pub open spec fn lit_wrongtype() -> Seq<u8> {
    seq![
        87u8, 82u8, 79u8, 78u8, 71u8, 84u8, 89u8, 80u8, 69u8, 32u8, 79u8, 112u8, 101u8, 114u8,
        97u8, 116u8, 105u8, 111u8, 110u8, 32u8, 97u8, 103u8, 97u8, 105u8, 110u8, 115u8, 116u8,
        32u8, 97u8, 32u8, 107u8, 101u8, 121u8, 32u8, 104u8, 111u8, 108u8, 100u8, 105u8, 110u8,
        103u8, 32u8, 116u8, 104u8, 101u8, 32u8, 119u8, 114u8, 111u8, 110u8, 103u8, 32u8, 107u8,
        105u8, 110u8, 100u8, 32u8, 111u8, 102u8, 32u8, 118u8, 97u8, 108u8, 117u8, 101u8,
    ]
}

/// The protocol value that carries a response on the wire.
pub open spec fn response_value(r: ResponseModel) -> ValueModel {
    match r {
        ResponseModel::Okay => ValueModel::SimpleString(lit_okay()),
        ResponseModel::Pong => ValueModel::SimpleString(lit_pong()),
        ResponseModel::Nil => ValueModel::Nil,
        ResponseModel::Integer(n) => ValueModel::Integer(n),
        ResponseModel::Bulk(b) => ValueModel::BulkString(b),
        ResponseModel::Error(Error::WrongType) => ValueModel::Error(lit_wrongtype()),
    }
}

/// The wire encoding of a response.
pub open spec fn enc_response(r: ResponseModel) -> Seq<u8> {
    enc(response_value(r))
}

/// A response whose wire value the encoder is exact for: a bulk payload no
/// longer than the signed 64-bit range (a machine limit on lengths).
pub open spec fn resp_wf(r: ResponseModel) -> bool {
    match r {
        ResponseModel::Bulk(b) => b.len() <= 0x7fff_ffff_ffff_ffff,
        _ => true,
    }
}

impl Value {
    /// Append the wire form of `response` to `buffer`.
    pub fn encode_to(response: Response, buffer: &mut Vec<u8>) -> (r: Result<
        (),
        crate::codecs::EncodeError,
    >)
        requires
            resp_wf(response.model()),
        ensures
            r is Ok,
            final(buffer)@ == old(buffer)@ + enc_response(response.model()),
    {
        let ghost m = response.model();
        let value = match response {
            Response::Okay => Value::SimpleString(vec![79, 75]),
            Response::Pong => Value::SimpleString(vec![80, 79, 78, 71]),
            Response::Nil => Value::Nil,
            Response::Integer(n) => Value::Integer(n),
            Response::Bulk(data) => Value::BulkString(data),
            Response::Error(Error::WrongType) => Value::Error(
                vec![
                    87, 82, 79, 78, 71, 84, 89, 80, 69, 32, 79, 112, 101, 114, 97, 116, 105, 111,
                    110, 32, 97, 103, 97, 105, 110, 115, 116, 32, 97, 32, 107, 101, 121, 32, 104,
                    111, 108, 100, 105, 110, 103, 32, 116, 104, 101, 32, 119, 114, 111, 110, 103,
                    32, 107, 105, 110, 100, 32, 111, 102, 32, 118, 97, 108, 117, 101,
                ],
            ),
        };
        proof {
            match m {
                ResponseModel::Okay => {
                    assert(value.model() =~= response_value(m)) by {
                        assert(value->SimpleString_0@ =~= lit_okay());
                    }
                },
                ResponseModel::Pong => {
                    assert(value.model() =~= response_value(m)) by {
                        assert(value->SimpleString_0@ =~= lit_pong());
                    }
                },
                ResponseModel::Error(Error::WrongType) => {
                    assert(value.model() =~= response_value(m)) by {
                        assert(value->Error_0@ =~= lit_wrongtype());
                    }
                },
                _ => {},
            }
            assert(value.model() == response_value(m));
            assert(crate::codecs::resp2::wf_model(value.model())) by {
                match m {
                    ResponseModel::Okay => {
                        assert(crate::codecs::resp2::line_safe(lit_okay()));
                    },
                    ResponseModel::Pong => {
                        assert(crate::codecs::resp2::line_safe(lit_pong()));
                    },
                    ResponseModel::Error(Error::WrongType) => {
                        assert(crate::codecs::resp2::line_safe(lit_wrongtype()));
                    },
                    _ => {},
                }
            }
        }
        value.write_to(buffer);
        Ok(())
    }
}

/// Every payload and length of `m` is at most `b`.
pub open spec fn model_bounded(m: ValueModel, b: int) -> bool
    decreases m,
{
    match m {
        ValueModel::SimpleString(s) => s.len() <= b,
        ValueModel::Error(s) => s.len() <= b,
        ValueModel::Integer(_) => true,
        ValueModel::BulkString(s) => s.len() <= b,
        ValueModel::Array(ms) => ms.len() <= b && forall|i: int|
            0 <= i < ms.len() ==> model_bounded(#[trigger] ms[i], b),
        ValueModel::Nil => true,
    }
}

/// Bounds only grow.
pub proof fn lemma_model_bounded_mono(m: ValueModel, a: int, b: int)
    requires
        model_bounded(m, a),
        a <= b,
    ensures
        model_bounded(m, b),
    decreases m,
{
    match m {
        ValueModel::Array(ms) => {
            assert forall|i: int| 0 <= i < ms.len() implies model_bounded(#[trigger] ms[i], b) by {
                lemma_model_bounded_mono(ms[i], a, b);
            }
        },
        _ => {},
    }
}

/// A decoded value is bounded by the bytes it took.
pub proof fn lemma_read_bounded(s: Seq<u8>)
    ensures
        spec_read(s) matches ReadOutcome::Parsed(m, n) ==> model_bounded(m, n),
    decreases s.len(), 0int,
{
    crate::codecs::resp2::lemma_line_bounds(s);
    lemma_read_bounds(s);
    if s.len() > 0 && s[0] == 42 {
        match crate::codecs::resp2::spec_line(s) {
            crate::codecs::resp2::LineOutcome::Line(end) => {
                match crate::codecs::resp2::spec_int_field(s.subrange(1, end - 2)) {
                    Ok(v) => {
                        if v >= 0 {
                            lemma_read_elems_bounded(s.skip(end), v as int);
                            lemma_read_elems_bounds(s.skip(end), v as int);
                            match spec_read_elems(s.skip(end), v as int) {
                                ElemsOutcome::Done(ms, used) => {
                                    assert forall|i: int| 0 <= i < ms.len() implies model_bounded(
                                        #[trigger] ms[i],
                                        end + used,
                                    ) by {
                                        lemma_model_bounded_mono(ms[i], used, end + used);
                                    }
                                },
                                _ => {},
                            }
                        }
                    },
                    _ => {},
                }
            },
            _ => {},
        }
    }
}

/// Each element of a decoded run is bounded by the bytes the run took.
pub proof fn lemma_read_elems_bounded(s: Seq<u8>, count: int)
    ensures
        spec_read_elems(s, count) matches ElemsOutcome::Done(ms, used) ==> forall|i: int|
            0 <= i < ms.len() ==> model_bounded(#[trigger] ms[i], used),
    decreases s.len(), 1 + count,
{
    if count > 0 {
        match spec_read(s) {
            ReadOutcome::Parsed(m, n) => {
                lemma_read_bounds(s);
                lemma_read_bounded(s);
                if 1 <= n <= s.len() {
                    lemma_read_elems_bounded(s.skip(n), count - 1);
                    lemma_read_elems_bounds(s.skip(n), count - 1);
                    match spec_read_elems(s.skip(n), count - 1) {
                        ElemsOutcome::Done(ms2, used2) => {
                            let ms = seq![m] + ms2;
                            let used = n + used2;
                            assert forall|i: int| 0 <= i < ms.len() implies model_bounded(
                                #[trigger] ms[i],
                                used,
                            ) by {
                                if i == 0 {
                                    assert(ms[0] == m);
                                    lemma_model_bounded_mono(m, n, used);
                                } else {
                                    assert(ms[i] == ms2[i - 1]);
                                    lemma_model_bounded_mono(ms2[i - 1], used2, used);
                                }
                            }
                        },
                        _ => {},
                    }
                }
            },
            _ => {},
        }
    }
}

/// A command built from bounded arguments is well-formed for storage.
proof fn lemma_command_of_wf(args: Seq<Seq<u8>>, b: int)
    requires
        args.len() <= b <= 0x7fff_ffff_ffff_ffff,
        forall|j: int| 0 <= j < args.len() ==> #[trigger] args[j].len() <= b,
    ensures
        spec_command_of(args) matches Ok(c) ==> c.wf(),
{
    assert(args.len() >= 2 ==> args.skip(1).len() == args.len() - 1);
}

/// A command decoded from a buffer within the signed 64-bit range (a
/// machine limit) is well-formed for storage, and takes between two bytes
/// and the whole buffer.
pub proof fn lemma_decode_wf(s: Seq<u8>)
    requires
        s.len() <= 0x7fff_ffff_ffff_ffff,
    ensures
        spec_decode(s) matches DecodeOutcome::Decoded(c, n) ==> c.wf() && 2 <= n <= s.len(),
{
    lemma_read_bounds(s);
    lemma_read_bounded(s);
    match spec_read(s) {
        ReadOutcome::Parsed(m, n) => {
            match m {
                ValueModel::Array(ms) => {
                    lemma_bulks_of(ms);
                    match bulks_of(ms) {
                        Some(args) => {
                            assert forall|j: int| 0 <= j < args.len() implies #[trigger] args[j]
                                .len() <= n by {
                                assert(ms[j] == ValueModel::BulkString(args[j]));
                                assert(model_bounded(ms[j], n));
                            }
                            lemma_command_of_wf(args, n);
                        },
                        None => {},
                    }
                },
                _ => {},
            }
        },
        _ => {},
    }
}

/// The canonical spelling `PING`.
pub open spec fn name_ping() -> Seq<u8> {
    seq![80u8, 73u8, 78u8, 71u8]
}

/// The canonical spelling `GET`.
pub open spec fn name_get() -> Seq<u8> {
    seq![71u8, 69u8, 84u8]
}

/// The canonical spelling `SET`.
pub open spec fn name_set() -> Seq<u8> {
    seq![83u8, 69u8, 84u8]
}

/// The canonical spelling `DEL`.
pub open spec fn name_del() -> Seq<u8> {
    seq![68u8, 69u8, 76u8]
}

/// The canonical spelling `EXISTS`.
pub open spec fn name_exists() -> Seq<u8> {
    seq![69u8, 88u8, 73u8, 83u8, 84u8, 83u8]
}

/// The canonical spelling `EXPIRE`.
pub open spec fn name_expire() -> Seq<u8> {
    seq![69u8, 88u8, 80u8, 73u8, 82u8, 69u8]
}

/// The canonical spelling `PERSIST`.
pub open spec fn name_persist() -> Seq<u8> {
    seq![80u8, 69u8, 82u8, 83u8, 73u8, 83u8, 84u8]
}

/// The canonical spelling `FLUSHALL`.
pub open spec fn name_flushall() -> Seq<u8> {
    seq![70u8, 76u8, 85u8, 83u8, 72u8, 65u8, 76u8, 76u8]
}

/// The canonical spelling `FLUSHDB`.
pub open spec fn name_flushdb() -> Seq<u8> {
    seq![70u8, 76u8, 85u8, 83u8, 72u8, 68u8, 66u8]
}

/// The canonical spelling `PX`.
pub open spec fn name_px() -> Seq<u8> {
    seq![80u8, 88u8]
}

/// The canonical spelling `NX`.
pub open spec fn name_nx() -> Seq<u8> {
    seq![78u8, 88u8]
}

/// The canonical spelling `XX`.
pub open spec fn name_xx() -> Seq<u8> {
    seq![88u8, 88u8]
}

/// The canonical spelling `ASYNC`.
pub open spec fn name_async() -> Seq<u8> {
    seq![65u8, 83u8, 89u8, 78u8, 67u8]
}

/// The canonical argument list that carries a command on the wire:
/// upper-case names, a `PX` option for a TTL, and `NX` or `XX` for a guard.
pub open spec fn command_args(c: CommandModel) -> Seq<Seq<u8>> {
    match c {
        CommandModel::Ping(None) => seq![name_ping()],
        CommandModel::Ping(Some(msg)) => seq![name_ping(), msg],
        CommandModel::Get(k) => seq![name_get(), k],
        CommandModel::Put(k, v, ttl, cond) => seq![name_set(), k, v] + (match ttl {
            Some(ms) => seq![name_px(), i_repr(ms as int)],
            None => Seq::empty(),
        }) + (match cond {
            Conditional::Always => Seq::empty(),
            Conditional::IfNotExists => seq![name_nx()],
            Conditional::IfExists => seq![name_xx()],
        }),
        CommandModel::Del(ks) => seq![name_del()] + ks,
        CommandModel::Exists(ks) => seq![name_exists()] + ks,
        CommandModel::Expire(k, ms) => seq![name_expire(), k, i_repr(ms as int / 1000)],
        CommandModel::Persist(k) => seq![name_persist(), k],
        CommandModel::FlushAll(Synchronicity::Sync) => seq![name_flushall()],
        CommandModel::FlushAll(Synchronicity::Async) => seq![name_flushall(), name_async()],
        CommandModel::FlushDB(Synchronicity::Sync) => seq![name_flushdb()],
        CommandModel::FlushDB(Synchronicity::Async) => seq![name_flushdb(), name_async()],
    }
}

/// The bulk-string values that carry an argument list.
pub open spec fn bulk_models(args: Seq<Seq<u8>>) -> Seq<ValueModel> {
    Seq::new(args.len(), |i: int| ValueModel::BulkString(args[i]))
}

/// The wire encoding of a command.
pub open spec fn enc_command(c: CommandModel) -> Seq<u8> {
    enc(ValueModel::Array(bulk_models(command_args(c))))
}

/// A command whose canonical wire form re-decodes to it: payloads within the
/// signed 64-bit range (a machine limit), at least one key for the
/// multi-key commands, and a TTL expressible in the wire's units — whole
/// milliseconds for SET, whole seconds for EXPIRE.
pub open spec fn cmd_encodable(c: CommandModel) -> bool {
    match c {
        CommandModel::Ping(None) => true,
        CommandModel::Ping(Some(msg)) => msg.len() <= 0x7fff_ffff_ffff_ffff,
        CommandModel::Get(k) => k.len() <= 0x7fff_ffff_ffff_ffff,
        CommandModel::Put(k, v, ttl, cond) => k.len() <= 0x7fff_ffff_ffff_ffff && v.len()
            <= 0x7fff_ffff_ffff_ffff && (ttl matches Some(ms) ==> ms <= 0x7fff_ffff_ffff_ffff),
        CommandModel::Del(ks) => 1 <= ks.len() <= 0x7fff_ffff_ffff_fff0 && forall|i: int|
            0 <= i < ks.len() ==> #[trigger] ks[i].len() <= 0x7fff_ffff_ffff_ffff,
        CommandModel::Exists(ks) => 1 <= ks.len() <= 0x7fff_ffff_ffff_fff0 && forall|i: int|
            0 <= i < ks.len() ==> #[trigger] ks[i].len() <= 0x7fff_ffff_ffff_ffff,
        CommandModel::Expire(k, ms) => k.len() <= 0x7fff_ffff_ffff_ffff && ms % 1000 == 0,
        CommandModel::Persist(k) => k.len() <= 0x7fff_ffff_ffff_ffff,
        CommandModel::FlushAll(_) => true,
        CommandModel::FlushDB(_) => true,
    }
}

/// The canonical wire form of an encodable command is a well-formed value.
pub proof fn lemma_command_args_wf(c: CommandModel)
    requires
        cmd_encodable(c),
    ensures
        wf_model(ValueModel::Array(bulk_models(command_args(c)))),
        command_args(c).len() >= 1,
{
    let args = command_args(c);
    match c {
        CommandModel::Put(k, v, ttl, cond) => {
            match ttl {
                Some(ms) => {
                    lemma_u_repr_len(ms as int);
                },
                None => {},
            }
        },
        CommandModel::Expire(k, ms) => {
            lemma_u_repr_len(ms as int / 1000);
        },
        _ => {},
    }
    assert forall|i: int| 0 <= i < bulk_models(args).len() implies wf_model(
        #[trigger] bulk_models(args)[i],
    ) by {
        assert(bulk_models(args)[i] == ValueModel::BulkString(args[i]));
    }
}

/// Lower-casing the canonical spellings gives the match keys.
proof fn lemma_names_lower()
    ensures
        lower(name_ping()) == lit_ping(),
        lower(name_get()) == lit_get(),
        lower(name_set()) == lit_set(),
        lower(name_del()) == lit_del(),
        lower(name_exists()) == lit_exists(),
        lower(name_expire()) == lit_expire(),
        lower(name_persist()) == lit_persist(),
        lower(name_flushall()) == lit_flushall(),
        lower(name_flushdb()) == lit_flushdb(),
        lower(name_px()) == lit_px(),
        lower(name_nx()) == lit_nx(),
        lower(name_xx()) == lit_xx(),
        lower(name_async()) == lit_async(),
{
    assert(lower(name_ping()) =~= lit_ping());
    assert(lower(name_get()) =~= lit_get());
    assert(lower(name_set()) =~= lit_set());
    assert(lower(name_del()) =~= lit_del());
    assert(lower(name_exists()) =~= lit_exists());
    assert(lower(name_expire()) =~= lit_expire());
    assert(lower(name_persist()) =~= lit_persist());
    assert(lower(name_flushall()) =~= lit_flushall());
    assert(lower(name_flushdb()) =~= lit_flushdb());
    assert(lower(name_px()) =~= lit_px());
    assert(lower(name_nx()) =~= lit_nx());
    assert(lower(name_xx()) =~= lit_xx());
    assert(lower(name_async()) =~= lit_async());
}

/// The match keys are pairwise distinct where the matching chain needs it.
proof fn lemma_lits_distinct()
    ensures
        lit_get() != lit_ping(),
        lit_set() != lit_ping(),
        lit_set() != lit_get(),
        lit_del() != lit_ping(),
        lit_del() != lit_get(),
        lit_del() != lit_set(),
        lit_exists() != lit_ping(),
        lit_exists() != lit_get(),
        lit_exists() != lit_set(),
        lit_exists() != lit_del(),
        lit_expire() != lit_ping(),
        lit_expire() != lit_get(),
        lit_expire() != lit_set(),
        lit_expire() != lit_del(),
        lit_expire() != lit_exists(),
        lit_persist() != lit_ping(),
        lit_persist() != lit_get(),
        lit_persist() != lit_set(),
        lit_persist() != lit_del(),
        lit_persist() != lit_exists(),
        lit_persist() != lit_expire(),
        lit_flushall() != lit_ping(),
        lit_flushall() != lit_get(),
        lit_flushall() != lit_set(),
        lit_flushall() != lit_del(),
        lit_flushall() != lit_exists(),
        lit_flushall() != lit_expire(),
        lit_flushall() != lit_persist(),
        lit_flushdb() != lit_ping(),
        lit_flushdb() != lit_get(),
        lit_flushdb() != lit_set(),
        lit_flushdb() != lit_del(),
        lit_flushdb() != lit_exists(),
        lit_flushdb() != lit_expire(),
        lit_flushdb() != lit_persist(),
        lit_flushdb() != lit_flushall(),
        lit_px() != lit_ex(),
        lit_nx() != lit_ex(),
        lit_nx() != lit_px(),
        lit_xx() != lit_ex(),
        lit_xx() != lit_px(),
        lit_xx() != lit_nx(),
        lit_async() != lit_sync(),
{
    assert(lit_ping().len() == 4);
    assert(lit_get().len() == 3);
    assert(lit_set().len() == 3);
    assert(lit_del().len() == 3);
    assert(lit_exists().len() == 6);
    assert(lit_expire().len() == 6);
    assert(lit_persist().len() == 7);
    assert(lit_flushall().len() == 8);
    assert(lit_flushdb().len() == 7);
    assert(lit_sync().len() == 4);
    assert(lit_async().len() == 5);
    assert(lit_get()[0] == 103);
    assert(lit_set()[0] == 115);
    assert(lit_del()[0] == 100);
    assert(lit_exists()[2] == 105);
    assert(lit_expire()[2] == 112);
    assert(lit_persist()[0] == 112);
    assert(lit_flushdb()[0] == 102);
    assert(lit_ex()[0] == 101);
    assert(lit_px()[0] == 112);
    assert(lit_nx()[0] == 110);
    assert(lit_xx()[0] == 120);
}

/// The canonical argument list of an encodable command names exactly that
/// command: the other half of the command round trip, at the level of
/// argument lists.
pub proof fn lemma_command_of_canonical(c: CommandModel)
    requires
        cmd_encodable(c),
    ensures
        spec_command_of(command_args(c)) == Ok::<CommandModel, DecodeError>(c),
{
    lemma_names_lower();
    lemma_lits_distinct();
    let args = command_args(c);
    match c {
        CommandModel::Ping(msg) => {
            match msg {
                None => {
                    assert(args =~= seq![name_ping()]);
                    assert(spec_command_of(args) == Ok::<CommandModel, DecodeError>(c));
                },
                Some(m) => {
                    assert(args =~= seq![name_ping(), m]);
                    assert(spec_command_of(args) == Ok::<CommandModel, DecodeError>(c));
                },
            }
        },
        CommandModel::Get(k) => {
            assert(args =~= seq![name_get(), k]);
            assert(spec_command_of(args) == Ok::<CommandModel, DecodeError>(c));
        },
        CommandModel::Put(k, v, ttl, cond) => {
            match ttl {
                Some(ms) => {
                    lemma_repr_round_trip(ms as int);
                    match cond {
                        Conditional::Always => {
                            assert(args =~= seq![name_set(), k, v, name_px(), i_repr(ms as int)]);
                            assert(spec_millis(i_repr(ms as int)) == Ok::<u64, DecodeError>(ms));
                            assert(spec_set_opts(args, 5, Some(ms), Conditional::Always)
                                == Ok::<(Option<u64>, Conditional), DecodeError>((
                                Some(ms),
                                Conditional::Always,
                            )));
                            assert(spec_set_opts(args, 3, None, Conditional::Always)
                                == Ok::<(Option<u64>, Conditional), DecodeError>((
                                Some(ms),
                                Conditional::Always,
                            )));
                        },
                        Conditional::IfNotExists => {
                            assert(args =~= seq![
                                name_set(),
                                k,
                                v,
                                name_px(),
                                i_repr(ms as int),
                                name_nx(),
                            ]);
                            assert(spec_millis(i_repr(ms as int)) == Ok::<u64, DecodeError>(ms));
                            assert(spec_set_opts(args, 6, Some(ms), Conditional::IfNotExists)
                                == Ok::<(Option<u64>, Conditional), DecodeError>((
                                Some(ms),
                                Conditional::IfNotExists,
                            )));
                            assert(spec_set_opts(args, 5, Some(ms), Conditional::Always)
                                == Ok::<(Option<u64>, Conditional), DecodeError>((
                                Some(ms),
                                Conditional::IfNotExists,
                            )));
                            assert(spec_set_opts(args, 3, None, Conditional::Always)
                                == Ok::<(Option<u64>, Conditional), DecodeError>((
                                Some(ms),
                                Conditional::IfNotExists,
                            )));
                        },
                        Conditional::IfExists => {
                            assert(args =~= seq![
                                name_set(),
                                k,
                                v,
                                name_px(),
                                i_repr(ms as int),
                                name_xx(),
                            ]);
                            assert(spec_millis(i_repr(ms as int)) == Ok::<u64, DecodeError>(ms));
                            assert(spec_set_opts(args, 6, Some(ms), Conditional::IfExists)
                                == Ok::<(Option<u64>, Conditional), DecodeError>((
                                Some(ms),
                                Conditional::IfExists,
                            )));
                            assert(spec_set_opts(args, 5, Some(ms), Conditional::Always)
                                == Ok::<(Option<u64>, Conditional), DecodeError>((
                                Some(ms),
                                Conditional::IfExists,
                            )));
                            assert(spec_set_opts(args, 3, None, Conditional::Always)
                                == Ok::<(Option<u64>, Conditional), DecodeError>((
                                Some(ms),
                                Conditional::IfExists,
                            )));
                        },
                    }
                },
                None => {
                    match cond {
                        Conditional::Always => {
                            assert(args =~= seq![name_set(), k, v]);
                            assert(spec_set_opts(args, 3, None, Conditional::Always)
                                == Ok::<(Option<u64>, Conditional), DecodeError>((
                                None,
                                Conditional::Always,
                            )));
                        },
                        Conditional::IfNotExists => {
                            assert(args =~= seq![name_set(), k, v, name_nx()]);
                            assert(spec_set_opts(args, 4, None, Conditional::IfNotExists)
                                == Ok::<(Option<u64>, Conditional), DecodeError>((
                                None,
                                Conditional::IfNotExists,
                            )));
                            assert(spec_set_opts(args, 3, None, Conditional::Always)
                                == Ok::<(Option<u64>, Conditional), DecodeError>((
                                None,
                                Conditional::IfNotExists,
                            )));
                        },
                        Conditional::IfExists => {
                            assert(args =~= seq![name_set(), k, v, name_xx()]);
                            assert(spec_set_opts(args, 4, None, Conditional::IfExists)
                                == Ok::<(Option<u64>, Conditional), DecodeError>((
                                None,
                                Conditional::IfExists,
                            )));
                            assert(spec_set_opts(args, 3, None, Conditional::Always)
                                == Ok::<(Option<u64>, Conditional), DecodeError>((
                                None,
                                Conditional::IfExists,
                            )));
                        },
                    }
                },
            }
            assert(spec_command_of(args) == Ok::<CommandModel, DecodeError>(c));
        },
        CommandModel::Del(ks) => {
            assert(args.skip(1) =~= ks);
            assert(spec_command_of(args) == Ok::<CommandModel, DecodeError>(c));
        },
        CommandModel::Exists(ks) => {
            assert(args.skip(1) =~= ks);
            assert(spec_command_of(args) == Ok::<CommandModel, DecodeError>(c));
        },
        CommandModel::Expire(k, ms) => {
            assert(args =~= seq![name_expire(), k, i_repr(ms as int / 1000)]);
            let secs = ms as int / 1000;
            assert(0 <= secs <= max_seconds()) by (nonlinear_arith)
                requires
                    0 <= ms <= 18446744073709551615,
                    secs == ms as int / 1000,
            ;
            lemma_repr_round_trip(secs);
            vstd::arithmetic::div_mod::lemma_fundamental_div_mod(ms as int, 1000);
            assert(spec_secs(i_repr(secs)) == Ok::<u64, DecodeError>(ms));
            assert(spec_command_of(args) == Ok::<CommandModel, DecodeError>(c));
        },
        CommandModel::Persist(k) => {
            assert(args =~= seq![name_persist(), k]);
            assert(spec_command_of(args) == Ok::<CommandModel, DecodeError>(c));
        },
        CommandModel::FlushAll(mode) => {
            match mode {
                Synchronicity::Sync => {
                    assert(spec_command_of(args) == Ok::<CommandModel, DecodeError>(c));
                },
                Synchronicity::Async => {
                    assert(spec_command_of(args) == Ok::<CommandModel, DecodeError>(c));
                },
            }
        },
        CommandModel::FlushDB(mode) => {
            match mode {
                Synchronicity::Sync => {
                    assert(spec_command_of(args) == Ok::<CommandModel, DecodeError>(c));
                },
                Synchronicity::Async => {
                    assert(spec_command_of(args) == Ok::<CommandModel, DecodeError>(c));
                },
            }
        },
    }
}

/// Codec round trip for commands: the canonical wire form of an encodable
/// command, followed by any bytes, decodes back to exactly that command.
pub proof fn lemma_command_round_trip(c: CommandModel, tail: Seq<u8>)
    requires
        cmd_encodable(c),
    ensures
        spec_decode(enc_command(c) + tail) == DecodeOutcome::Decoded(
            c,
            enc_command(c).len() as int,
        ),
{
    lemma_command_args_wf(c);
    let args = command_args(c);
    let ms = bulk_models(args);
    lemma_enc_dec(ValueModel::Array(ms), tail);
    assert(all_bulks(ms)) by {
        assert forall|j: int| 0 <= j < ms.len() implies #[trigger] ms[j] is BulkString by {
            assert(ms[j] == ValueModel::BulkString(args[j]));
        }
    }
    lemma_bulks_of(ms);
    let args2 = bulks_of(ms)->Some_0;
    assert(args2 =~= args) by {
        assert forall|j: int| 0 <= j < args.len() implies args2[j] == args[j] by {
            assert(ms[j] == ValueModel::BulkString(args2[j]));
            assert(ms[j] == ValueModel::BulkString(args[j]));
        }
    }
    lemma_command_of_canonical(c);
}

/// Append the wire form of an argument list, as an array of bulk strings.
fn encode_args(args: &Vec<Vec<u8>>, buffer: &mut Vec<u8>)
    requires
        wf_model(ValueModel::Array(bulk_models(args.deep_view()))),
    ensures
        final(buffer)@ == old(buffer)@ + enc(ValueModel::Array(bulk_models(args.deep_view()))),
{
    let n = args.len();
    let mut elems: Vec<Value> = Vec::new();
    let mut i: usize = 0;
    while i < n
        invariant
            i <= n,
            n == args@.len(),
            elems@.len() == i,
            forall|j: int| 0 <= j < i ==> #[trigger] elems@[j].model() == ValueModel::BulkString(
                args@[j]@,
            ),
        decreases n - i,
    {
        elems.push(Value::BulkString(copy_bytes(&args[i])));
        i = i + 1;
    }
    let value = Value::Array(elems);
    proof {
        lemma_models_index(elems, 0);
        assert(models(elems, 0) =~= bulk_models(args.deep_view())) by {
            assert forall|j: int| 0 <= j < n implies models(elems, 0)[j] == bulk_models(
                args.deep_view(),
            )[j] by {
                assert(args.deep_view()[j] == args@[j].deep_view());
                assert(args@[j].deep_view() =~= args@[j]@);
            }
        }
    }
    value.write_to(buffer);
}

impl Value {
    /// Append the canonical wire form of a command to `buffer`: an array of
    /// bulk strings with the upper-case name, a `PX` option for a TTL, and
    /// `NX` or `XX` for a guard.
    pub fn encode_command(command: &Command, buffer: &mut Vec<u8>) -> (r: Result<
        (),
        crate::codecs::EncodeError,
    >)
        requires
            cmd_encodable(command.model()),
        ensures
            r is Ok,
            final(buffer)@ == old(buffer)@ + enc_command(command.model()),
    {
        let ghost c = command.model();
        let ghost cargs = command_args(c);
        let mut args: Vec<Vec<u8>> = Vec::new();
        match command {
            Command::Ping(msg) => {
                args.push(vec![80, 73, 78, 71]);
                match msg {
                    Some(m) => {
                        args.push(copy_bytes(m));
                    },
                    None => {},
                }
            },
            Command::Get(k) => {
                args.push(vec![71, 69, 84]);
                args.push(copy_bytes(k));
            },
            Command::Put(k, v, ttl, cond) => {
                args.push(vec![83, 69, 84]);
                args.push(copy_bytes(k));
                args.push(copy_bytes(v));
                match ttl {
                    Some(ms) => {
                        args.push(vec![80, 88]);
                        args.push(render_i64(*ms as i64));
                    },
                    None => {},
                }
                match cond {
                    crate::protocol::Conditional::Always => {},
                    crate::protocol::Conditional::IfNotExists => {
                        args.push(vec![78, 88]);
                    },
                    crate::protocol::Conditional::IfExists => {
                        args.push(vec![88, 88]);
                    },
                }
            },
            Command::Del(ks) => {
                args.push(vec![68, 69, 76]);
                let n = ks.len();
                let mut i: usize = 0;
                while i < n
                    invariant
                        i <= n,
                        n == ks@.len(),
                        args@.len() == i + 1,
                        args@[0]@ =~= name_del(),
                        forall|j: int| 1 <= j < i + 1 ==> #[trigger] args@[j]@ == ks@[j - 1]@,
                    decreases n - i,
                {
                    args.push(copy_bytes(&ks[i]));
                    i = i + 1;
                }
            },
            Command::Exists(ks) => {
                args.push(vec![69, 88, 73, 83, 84, 83]);
                let n = ks.len();
                let mut i: usize = 0;
                while i < n
                    invariant
                        i <= n,
                        n == ks@.len(),
                        args@.len() == i + 1,
                        args@[0]@ =~= name_exists(),
                        forall|j: int| 1 <= j < i + 1 ==> #[trigger] args@[j]@ == ks@[j - 1]@,
                    decreases n - i,
                {
                    args.push(copy_bytes(&ks[i]));
                    i = i + 1;
                }
            },
            Command::Expire(k, ms) => {
                args.push(vec![69, 88, 80, 73, 82, 69]);
                args.push(copy_bytes(k));
                proof {
                    assert(*ms / 1000 <= 18446744073709551) by (nonlinear_arith)
                        requires
                            *ms <= 18446744073709551615u64,
                    ;
                }
                args.push(render_i64((*ms / 1000) as i64));
            },
            Command::Persist(k) => {
                args.push(vec![80, 69, 82, 83, 73, 83, 84]);
                args.push(copy_bytes(k));
            },
            Command::FlushAll(mode) => {
                args.push(vec![70, 76, 85, 83, 72, 65, 76, 76]);
                match mode {
                    Synchronicity::Sync => {},
                    Synchronicity::Async => {
                        args.push(vec![65, 83, 89, 78, 67]);
                    },
                }
            },
            Command::FlushDB(mode) => {
                args.push(vec![70, 76, 85, 83, 72, 68, 66]);
                match mode {
                    Synchronicity::Sync => {},
                    Synchronicity::Async => {
                        args.push(vec![65, 83, 89, 78, 67]);
                    },
                }
            },
        }
        proof {
            assert(args.deep_view() =~= cargs) by {
                assert(args.deep_view().len() == args@.len());
                assert forall|j: int| 0 <= j < args@.len() implies args.deep_view()[j]
                    == args@[j]@ by {
                    assert(args.deep_view()[j] == args@[j].deep_view());
                    assert(args@[j].deep_view() =~= args@[j]@);
                }
                assert forall|j: int| 0 <= j < cargs.len() implies args@[j]@ == cargs[j] by {}
            }
            lemma_command_args_wf(c);
        }
        encode_args(&args, buffer);
        Ok(())
    }
}

/// Appending bytes does not disturb a command already decoded or rejected.
pub proof fn lemma_decode_append(s: Seq<u8>, t: Seq<u8>)
    ensures
        spec_decode(s) matches DecodeOutcome::Decoded(c, n) ==> spec_decode(s + t)
            == spec_decode(s),
        spec_decode(s) matches DecodeOutcome::Fail(e) ==> spec_decode(s + t) == spec_decode(s),
{
    crate::codecs::resp2::lemma_read_append(s, t);
}

} // verus!
