//! The per-connection session: decode commands from the incoming bytes,
//! classify each as a read or a write, dispatch, and emit the encoded
//! responses in command order.
//!
//! The session embeds the writer and serves read commands from the latest
//! published snapshot, which is one of the snapshots a detached reader is
//! allowed to observe. Asynchronous flushes are applied and acknowledged
//! with `OK` immediately. TTL expirations are not run here: each reaction
//! lists the expirations to schedule, and the caller fires them later
//! through `expire`.

use vstd::prelude::*;

use crate::codecs::command::{enc_response, lemma_decode_wf, resp_wf, spec_decode, DecodeOutcome};
use crate::codecs::resp2::Value;
use crate::codecs::DecodeError;
use crate::protocol::{Command, CommandModel, Response, ResponseModel};
use crate::storage::store::empty_store;
use crate::storage::writer::{apply_write, TimerModel, TtlSchedule, Writer};
use crate::storage::{is_expired, spec_read_item, ItemModel, Operation};

verus! {

/// How many of `keys[i..]` are present in `m` and not expired at `now`.
pub open spec fn live_count(
    m: Map<Seq<u8>, ItemModel>,
    keys: Seq<Seq<u8>>,
    i: int,
    now: u64,
) -> int
    decreases keys.len() - i,
{
    if i < 0 || i >= keys.len() {
        0
    } else {
        (if m.contains_key(keys[i]) && !is_expired(m[keys[i]], now) {
            1int
        } else {
            0int
        }) + live_count(m, keys, i + 1, now)
    }
}

/// The live count lies between zero and the number of keys listed.
pub proof fn lemma_live_count_bounds(m: Map<Seq<u8>, ItemModel>, keys: Seq<Seq<u8>>, i: int, now: u64)
    ensures
        0 <= live_count(m, keys, i, now),
        0 <= i <= keys.len() ==> live_count(m, keys, i, now) <= keys.len() - i,
        live_count(m, keys, i, now) <= keys.len(),
    decreases keys.len() - i,
{
    if 0 <= i < keys.len() {
        lemma_live_count_bounds(m, keys, i + 1, now);
    }
}

/// The response a read command receives against the published map `m` at
/// the instant `now`. Only the read commands are meaningful here.
pub open spec fn spec_serve_read(m: Map<Seq<u8>, ItemModel>, c: CommandModel, now: u64) -> ResponseModel {
    match c {
        CommandModel::Ping(None) => ResponseModel::Pong,
        CommandModel::Ping(Some(msg)) => ResponseModel::Bulk(msg),
        CommandModel::Get(k) => spec_read_item(
            if m.contains_key(k) {
                Some(m[k])
            } else {
                None
            },
            now,
        ),
        CommandModel::Exists(ks) => ResponseModel::Integer(live_count(m, ks, 0, now) as i64),
        _ => ResponseModel::Nil,
    }
}

/// What one command does to a session: the published map and operation
/// counter after it, the response emitted for it, and a TTL expiration to
/// schedule, if any. A write is applied under the next identifier; an
/// asynchronous write is acknowledged with `OK` right away; a read is
/// answered from the published map and consumes no identifier.
#[verifier::ext_equal]
pub struct StepEffect {
    pub map: Map<Seq<u8>, ItemModel>,
    pub op: u64,
    pub response: ResponseModel,
    pub timer: Option<TimerModel>,
}

/// The effect of one command on a session.
pub open spec fn spec_step(
    m: Map<Seq<u8>, ItemModel>,
    op: u64,
    c: CommandModel,
    now: u64,
) -> StepEffect {
    if c.writes() {
        let e = apply_write(m, (op + 1) as u64, c, now);
        StepEffect {
            map: e.map,
            op: (op + 1) as u64,
            response: if c.is_async() {
                ResponseModel::Okay
            } else {
                e.response
            },
            timer: e.timer,
        }
    } else {
        StepEffect { map: m, op, response: spec_serve_read(m, c, now), timer: None }
    }
}

/// What a whole buffer of bytes does to a session: the state after all full
/// frames at its front are processed, the bytes emitted for them in order,
/// the expirations to schedule, and the decode error that ends the
/// connection, if one is hit.
#[verifier::ext_equal]
pub struct RunOutcome {
    pub map: Map<Seq<u8>, ItemModel>,
    pub op: u64,
    pub buffer: Seq<u8>,
    pub output: Seq<u8>,
    pub timers: Seq<TimerModel>,
    pub failure: Option<DecodeError>,
}

/// Process every full frame at the front of `buf` in order.
pub open spec fn run_session(
    m: Map<Seq<u8>, ItemModel>,
    op: u64,
    buf: Seq<u8>,
    now: u64,
) -> RunOutcome
    decreases buf.len(),
{
    match spec_decode(buf) {
        DecodeOutcome::Incomplete => RunOutcome {
            map: m,
            op,
            buffer: buf,
            output: Seq::empty(),
            timers: Seq::empty(),
            failure: None,
        },
        DecodeOutcome::Fail(e) => RunOutcome {
            map: m,
            op,
            buffer: buf,
            output: Seq::empty(),
            timers: Seq::empty(),
            failure: Some(e),
        },
        DecodeOutcome::Decoded(c, n) => if n < 1 || n > buf.len() {
            // Never reached: a decoded command takes at least one byte and
            // at most the whole buffer.
            RunOutcome {
                map: m,
                op,
                buffer: buf,
                output: Seq::empty(),
                timers: Seq::empty(),
                failure: None,
            }
        } else {
            let e = spec_step(m, op, c, now);
            let rest = run_session(e.map, e.op, buf.skip(n), now);
            RunOutcome {
                map: rest.map,
                op: rest.op,
                buffer: rest.buffer,
                output: enc_response(e.response) + rest.output,
                timers: (match e.timer {
                    Some(t) => seq![t],
                    None => Seq::empty(),
                }) + rest.timers,
                failure: rest.failure,
            }
        },
    }
}

/// An already-emitted prefix of output and timers, glued onto the outcome
/// for the rest of a buffer.
pub open spec fn run_prepend(out: Seq<u8>, tms: Seq<TimerModel>, rest: RunOutcome) -> RunOutcome {
    RunOutcome {
        map: rest.map,
        op: rest.op,
        buffer: rest.buffer,
        output: out + rest.output,
        timers: tms + rest.timers,
        failure: rest.failure,
    }
}

/// Gluing two emitted prefixes one after the other.
proof fn lemma_run_prepend_compose(
    out: Seq<u8>,
    tms: Seq<TimerModel>,
    out2: Seq<u8>,
    tms2: Seq<TimerModel>,
    rest: RunOutcome,
)
    ensures
        run_prepend(out, tms, run_prepend(out2, tms2, rest)) == run_prepend(
            out + out2,
            tms + tms2,
            rest,
        ),
{
    assert(out + (out2 + rest.output) =~= (out + out2) + rest.output);
    assert(tms + (tms2 + rest.timers) =~= (tms + tms2) + rest.timers);
    assert(run_prepend(out, tms, run_prepend(out2, tms2, rest)) =~= run_prepend(
        out + out2,
        tms + tms2,
        rest,
    ));
}

/// The models of a vector of TTL schedules.
pub open spec fn timers_model(v: Seq<TtlSchedule>) -> Seq<TimerModel> {
    Seq::new(v.len(), |i: int| v[i].model())
}

/// What a session hands back for one chunk of input: the bytes to send, the
/// TTL expirations to schedule, and the decode error that ends the
/// connection, if one was hit.
#[derive(Debug)]
pub struct Reaction {
    pub output: Vec<u8>,
    pub timers: Vec<TtlSchedule>,
    pub failure: Option<DecodeError>,
}

/// A per-connection session over an embedded writer.
pub struct Session {
    writer: Writer,
    buffer: Vec<u8>,
}

impl Session {
    /// The published content of the store.
    pub closed spec fn map_model(self) -> Map<Seq<u8>, ItemModel> {
        self.writer.map_model()
    }

    /// The writer's operation counter.
    pub closed spec fn op_counter(self) -> u64 {
        self.writer.op_counter()
    }

    /// The bytes received but not yet decoded.
    pub closed spec fn pending_bytes(self) -> Seq<u8> {
        self.buffer@
    }

    /// The session invariant: the writer's invariant, and a buffer within
    /// the signed 64-bit range (a machine limit).
    pub closed spec fn wf(self) -> bool {
        self.writer.wf() && self.buffer@.len() <= 0x7fff_ffff_ffff_ffff
    }

    /// A fresh session over an empty store.
    pub fn new() -> (r: Session)
        ensures
            r.wf(),
            r.map_model() == empty_store(),
            r.op_counter() == 0,
            r.pending_bytes() == Seq::<u8>::empty(),
    {
        Session { writer: Writer::default(), buffer: Vec::new() }
    }

    /// Answer one read command from the published map.
    fn serve_read(&self, cmd: Command, now: u64) -> (r: Response)
        requires
            !cmd.model().writes(),
            cmd.model().wf(),
        ensures
            r.model() == spec_serve_read(self.map_model(), cmd.model(), now),
    {
        match cmd {
            Command::Ping(None) => Response::Pong,
            Command::Ping(Some(msg)) => Response::Bulk(msg),
            Command::Get(key) => {
                match self.writer.get_item(&key) {
                    None => Response::Nil,
                    Some(item) => {
                        let items = vec![item];
                        crate::storage::get_string_as_bulk(items.as_slice(), now)
                    },
                }
            },
            Command::Exists(keys) => {
                let ghost m = self.map_model();
                let ghost keysd = keys.deep_view();
                let n = keys.len();
                proof {
                    assert(keysd.len() == n);
                    lemma_live_count_bounds(m, keysd, 0, now);
                }
                let mut count: i64 = 0;
                let mut i: usize = 0;
                while i < n
                    invariant
                        i <= n,
                        n == keys@.len(),
                        keysd == keys.deep_view(),
                        keysd.len() == n,
                        n <= 0x7fff_ffff_ffff_ffff,
                        m == self.map_model(),
                        0 <= count <= i,
                        count + live_count(m, keysd, i as int, now) == live_count(m, keysd, 0, now),
                    decreases n - i,
                {
                    proof {
                        assert(keysd[i as int] == keys@[i as int]@) by {
                            assert(keys@[i as int].deep_view() =~= keys@[i as int]@);
                        }
                        lemma_live_count_bounds(m, keysd, i + 1, now);
                    }
                    let live = match self.writer.get_item(&keys[i]) {
                        Some(item) => match item.meta.expiration {
                            Some(t) => t > now,
                            None => true,
                        },
                        None => false,
                    };
                    if live {
                        count = count + 1;
                    }
                    i = i + 1;
                }
                Response::Integer(count)
            },
            _ => vstd::pervasive::unreached(),
        }
    }

    /// Feed one chunk of received bytes and process every full frame now in
    /// the buffer, in order: each command's response is appended to the
    /// reaction's output, writes go through the writer, reads are answered
    /// from the published map, and a decode error ends the run with the
    /// remaining bytes kept.
    pub fn receive(&mut self, chunk: &[u8], now: u64) -> (r: Reaction)
        requires
            old(self).wf(),
            old(self).pending_bytes().len() + chunk@.len() <= 0x7fff_ffff_ffff_ffff,
            old(self).op_counter() + old(self).pending_bytes().len() + chunk@.len() <= u64::MAX,
        ensures
            final(self).wf(),
            ({
                let ro = run_session(
                    old(self).map_model(),
                    old(self).op_counter(),
                    old(self).pending_bytes() + chunk@,
                    now,
                );
                &&& final(self).map_model() == ro.map
                &&& final(self).op_counter() == ro.op
                &&& final(self).pending_bytes() == ro.buffer
                &&& r.output@ == ro.output
                &&& timers_model(r.timers@) == ro.timers
                &&& r.failure == ro.failure
            }),
    {
        let ghost m0 = self.map_model();
        let ghost op0 = self.op_counter();
        self.buffer.extend_from_slice(chunk);
        proof {
            assert(self.buffer@ =~= old(self).pending_bytes() + chunk@);
        }
        let ghost b0 = self.buffer@;
        let mut output: Vec<u8> = Vec::new();
        let mut timers: Vec<TtlSchedule> = Vec::new();
        proof {
            assert(run_prepend(output@, timers_model(timers@), run_session(m0, op0, b0, now))
                =~= run_session(m0, op0, b0, now)) by {
                assert(timers_model(timers@) =~= Seq::<TimerModel>::empty());
                assert(output@ + run_session(m0, op0, b0, now).output =~= run_session(
                    m0,
                    op0,
                    b0,
                    now,
                ).output);
                assert(timers_model(timers@) + run_session(m0, op0, b0, now).timers =~= run_session(
                    m0,
                    op0,
                    b0,
                    now,
                ).timers);
            }
        }
        loop
            invariant
                self.wf(),
                m0 == old(self).map_model(),
                op0 == old(self).op_counter(),
                b0 == old(self).pending_bytes() + chunk@,
                self.op_counter() + self.buffer@.len() <= u64::MAX,
                run_session(m0, op0, b0, now) == run_prepend(
                    output@,
                    timers_model(timers@),
                    run_session(self.map_model(), self.op_counter(), self.buffer@, now),
                ),
            decreases self.buffer@.len(),
        {
            let ghost mc = self.map_model();
            let ghost opc = self.op_counter();
            let ghost bc = self.buffer@;
            let ghost out0 = output@;
            let ghost tm0 = timers_model(timers@);
            proof {
                lemma_decode_wf(bc);
            }
            let step = Value::decode_from(&mut self.buffer);
            match step {
                Ok(None) => {
                    proof {
                        let x = run_session(mc, opc, bc, now);
                        assert(output@ + x.output =~= output@);
                        assert(timers_model(timers@) + x.timers =~= timers_model(timers@));
                    }
                    return Reaction { output, timers, failure: None };
                },
                Err(e) => {
                    proof {
                        let x = run_session(mc, opc, bc, now);
                        assert(output@ + x.output =~= output@);
                        assert(timers_model(timers@) + x.timers =~= timers_model(timers@));
                    }
                    return Reaction { output, timers, failure: Some(e) };
                },
                Ok(Some(cmd)) => {
                    let ghost c = cmd.model();
                    let ghost eff = spec_step(mc, opc, c, now);
                    let ghost rest = run_session(eff.map, eff.op, self.buffer@, now);
                    let ghost tstep: Seq<TimerModel> = match eff.timer {
                        Some(t) => seq![t],
                        None => Seq::empty(),
                    };
                    proof {
                        assert(run_session(mc, opc, bc, now) =~= run_prepend(
                            enc_response(eff.response),
                            tstep,
                            rest,
                        ));
                    }
                    let resp: Response;
                    if cmd.writes() {
                        let is_async_cmd = cmd.is_async();
                        let (res, timer) = self.writer.handle(Operation::from(cmd), now);
                        let got = match res {
                            Ok(got) => got,
                            Err(_) => vstd::pervasive::unreached(),
                        };
                        resp = if is_async_cmd {
                            Response::Okay
                        } else {
                            got
                        };
                        proof {
                            lemma_write_resp_wf(mc, eff.op, c, now);
                        }
                        match timer {
                            Some(t) => {
                                let ghost old_timers = timers@;
                                timers.push(t);
                                proof {
                                    assert(timers_model(timers@) =~= tm0 + tstep);
                                }
                            },
                            None => {
                                proof {
                                    assert(timers_model(timers@) =~= tm0 + tstep);
                                }
                            },
                        }
                    } else {
                        resp = self.serve_read(cmd, now);
                        proof {
                            crate::storage::writer::lemma_wf_map_wf(self.writer);
                            assert(resp_wf(eff.response)) by {
                                match c {
                                    CommandModel::Get(k) => {
                                        if mc.contains_key(k) {
                                            assert(match mc[k].value {
                                                crate::storage::ValueModel::Str(b) => b.len()
                                                    <= 0x7fff_ffff_ffff_ffff,
                                                _ => true,
                                            });
                                        }
                                    },
                                    _ => {},
                                }
                            }
                            assert(timers_model(timers@) =~= tm0 + tstep);
                        }
                    }
                    let _ = Value::encode_to(resp, &mut output);
                    proof {
                        assert(output@ == out0 + enc_response(eff.response));
                        lemma_run_prepend_compose(
                            out0,
                            tm0,
                            enc_response(eff.response),
                            tstep,
                            rest,
                        );
                    }
                },
            }
        }
    }
}

impl Session {
    /// Run a scheduled expiration from an earlier reaction: remove `key`
    /// only if its item still carries `operation_id`; a superseded schedule
    /// is a no-op.
    pub fn expire(&mut self, key: &Vec<u8>, operation_id: u64)
        requires
            old(self).wf(),
        ensures
            final(self).wf(),
            final(self).op_counter() == old(self).op_counter(),
            final(self).pending_bytes() == old(self).pending_bytes(),
            ({
                let m = old(self).map_model();
                if m.contains_key(key@) && m[key@].operation_id == operation_id {
                    final(self).map_model() == m.remove(key@)
                } else {
                    final(self).map_model() == m
                }
            }),
    {
        self.writer.expire_if_current(key, operation_id);
    }
}


/// Per-connection ordering: input split into any two batches produces the
/// first batch's responses, then the second's, with the session state and
/// leftover bytes carried over — so pipelined commands on one connection
/// are answered in command order, however their bytes arrive.
pub proof fn lemma_session_append(
    m: Map<Seq<u8>, ItemModel>,
    op: u64,
    b1: Seq<u8>,
    b2: Seq<u8>,
    now: u64,
)
    requires
        run_session(m, op, b1, now).failure is None,
    ensures
        ({
            let r1 = run_session(m, op, b1, now);
            let r2 = run_session(r1.map, r1.op, r1.buffer + b2, now);
            run_session(m, op, b1 + b2, now) == RunOutcome {
                map: r2.map,
                op: r2.op,
                buffer: r2.buffer,
                output: r1.output + r2.output,
                timers: r1.timers + r2.timers,
                failure: r2.failure,
            }
        }),
    decreases b1.len(),
{
    crate::codecs::command::lemma_decode_append(b1, b2);
    crate::codecs::resp2::lemma_read_bounds(b1);
    let r1 = run_session(m, op, b1, now);
    let r2 = run_session(r1.map, r1.op, r1.buffer + b2, now);
    match spec_decode(b1) {
        DecodeOutcome::Decoded(c, n) => {
            assert(1 <= n <= b1.len());
            assert((b1 + b2).skip(n) =~= b1.skip(n) + b2);
            let e = spec_step(m, op, c, now);
            lemma_session_append(e.map, e.op, b1.skip(n), b2, now);
            let s1 = run_session(e.map, e.op, b1.skip(n), now);
            let s2 = run_session(s1.map, s1.op, s1.buffer + b2, now);
            assert(enc_response(e.response) + (s1.output + s2.output) =~= (enc_response(e.response)
                + s1.output) + s2.output);
            let tstep: Seq<TimerModel> = match e.timer {
                Some(t) => seq![t],
                None => Seq::empty(),
            };
            assert(tstep + (s1.timers + s2.timers) =~= (tstep + s1.timers) + s2.timers);
            assert(run_session(m, op, b1 + b2, now) =~= RunOutcome {
                map: r2.map,
                op: r2.op,
                buffer: r2.buffer,
                output: r1.output + r2.output,
                timers: r1.timers + r2.timers,
                failure: r2.failure,
            });
        },
        DecodeOutcome::Incomplete => {
            assert(r1.buffer + b2 =~= b1 + b2);
            assert(r1.output + r2.output =~= r2.output);
            assert(r1.timers + r2.timers =~= r2.timers);
            assert(run_session(m, op, b1 + b2, now) =~= RunOutcome {
                map: r2.map,
                op: r2.op,
                buffer: r2.buffer,
                output: r1.output + r2.output,
                timers: r1.timers + r2.timers,
                failure: r2.failure,
            });
        },
        DecodeOutcome::Fail(_) => {},
    }
}

/// A write command's response has no bulk payload, so it is always fit to
/// encode.
proof fn lemma_write_resp_wf(
    m: Map<Seq<u8>, ItemModel>,
    op_id: u64,
    c: CommandModel,
    now: u64,
)
    ensures
        resp_wf(apply_write(m, op_id, c, now).response),
{
}

} // verus!
