//! The routing engine. One value of [`Engine`] carries everything the
//! serial loop owns: the configuration snapshot, the per-channel runtime
//! state, the frame rate limiter, the session-name cache and the claim
//! set. The caller reads a line off the link, hands it with a timestamp
//! to [`Engine::handle_line`], and carries out the actions it returns;
//! session-directed actions are narrowed to process ids with
//! [`Engine::session_targets`] after the caller has enumerated the live
//! sessions and recorded their names.

use vstd::prelude::*;
use crate::cache::SessionCache;
use crate::cache::has_pid;
use crate::cache::name_of;
use crate::config::ChannelSpec;
use crate::config::Config;
use crate::config::same_signature;
use crate::config::check_same_signature;
use crate::config::is_claimed;
use crate::config::claims_name;
use crate::config::in_list;
use crate::config::claim_names;
use crate::config::claim_contains;
use crate::config::lemma_claim_set_covers;
use crate::num::UNIT;
use crate::num::VAL_CAP;
use crate::num::is_decimal;
use crate::num::dec_micros;
use crate::num::norm_spec;
use crate::num::clamp_spec;
use crate::num::parse_decimal;
use crate::num::normalize;
use crate::num::lemma_norm_sat;
use crate::num::lemma_norm_range;
use crate::protocol::PIPE;
use crate::protocol::works1_seq;
use crate::protocol::works2_seq;
use crate::protocol::works1_bytes;
use crate::protocol::works2_bytes;
use crate::protocol::frame_fields;
use crate::protocol::split_spec;
use crate::protocol::split_bytes;
use crate::protocol::copy_range;
use crate::smooth::ChannelState;
use crate::smooth::step_state;
use crate::smooth::step_emits;
use crate::smooth::channel_step;
use crate::text::trim_spec;
use crate::text::trim_bytes;
use crate::text::bytes_eq;
use crate::text::lower_spec;
use crate::text::lower_bytes;

verus! {

/// Least interval between two accepted frames, in milliseconds.
pub const RATE_MS: u64 = 25;

/// Accepted frames between two amnesties of the session-name cache.
pub const AMNESTY: u64 = 200;

/// What one accepted channel value asks of the audio subsystem.
pub enum ChannelCmd {
    /// Set the default endpoint's master volume.
    Master(u64),
    /// Set the volume of this channel's matching sessions.
    Sessions(u64),
}

/// One channel's command within an accepted frame.
pub struct FrameCmd {
    pub index: usize,
    pub cmd: ChannelCmd,
}

/// What one wire line amounts to.
pub enum LineOutcome {
    /// Nothing: a blank line, a malformed or rate-limited frame.
    Ignored,
    /// A button signal: switch to the carried configured target.
    Switch(Vec<u8>),
    /// An accepted frame: the commands of the channels that passed the
    /// smoother and the debounce gate, in channel order.
    Frame(Vec<FrameCmd>),
}

/// The frame rate limiter: the first frame is always accepted, a later
/// one only once the fixed interval has passed since the last accepted
/// frame.
pub open spec fn rate_ok(last: Option<u64>, now: u64) -> bool {
    match last {
        Option::None => true,
        Option::Some(t) => now >= t && now - t >= RATE_MS as int,
    }
}

/// The normalized value a decimal field carries, against a ceiling.
pub open spec fn field_value(f: Seq<u8>, ceiling: int) -> int {
    norm_spec(dec_micros(f), ceiling)
}

/// One channel's next state under one frame field: a decimal field runs
/// the smoother and the debounce check, any other field leaves the
/// channel alone.
pub open spec fn chan_next(st: ChannelState, f: Seq<u8>, ceiling: int) -> ChannelState {
    if is_decimal(f) {
        step_state(st, field_value(f, ceiling))
    } else {
        st
    }
}

/// The value one channel applies under one frame field, if any.
pub open spec fn chan_emit(st: ChannelState, f: Seq<u8>, ceiling: int) -> Option<u64> {
    if is_decimal(f) {
        step_emits(st, field_value(f, ceiling))
    } else {
        Option::None
    }
}

/// The command an applying channel issues: master volume for a `System`
/// channel, session volume for the others.
pub open spec fn cmd_for(dials: Seq<ChannelSpec>, i: int, v: u64) -> ChannelCmd {
    match dials[i] {
        ChannelSpec::System => ChannelCmd::Master(v),
        _ => ChannelCmd::Sessions(v),
    }
}

/// Whether some command in the list is channel `i`'s.
pub open spec fn has_cmd(cmds: Seq<FrameCmd>, i: int) -> bool {
    exists|k: int| 0 <= k < cmds.len() && (#[trigger] cmds[k]).index == i
}

proof fn lemma_has_cmd_push(cmds: Seq<FrameCmd>, c: FrameCmd, i: int)
    requires
        has_cmd(cmds, i),
    ensures
        has_cmd(cmds.push(c), i),
{
    let k0 = choose|k: int| 0 <= k < cmds.len() && (#[trigger] cmds[k]).index == i;
    assert(cmds.push(c)[k0].index == i);
}

/// Whether a session of process `p` is hit by channel `d`: a `Process`
/// channel hits the sessions whose recorded name is its folded target,
/// an `AllOthers` channel hits every session whose recorded name is
/// claimed by no channel. The system idle id is never hit.
pub open spec fn session_hit(
    d: ChannelSpec,
    dials: Seq<ChannelSpec>,
    cache: Seq<(u32, Vec<u8>)>,
    p: u32,
) -> bool {
    p != 0 && match d {
        ChannelSpec::System => false,
        ChannelSpec::Process(t) => t@.len() > 0 && name_of(cache, p) == lower_spec(t@),
        ChannelSpec::AllOthers => !is_claimed(dials, name_of(cache, p)),
    }
}

/// What an accepted frame does to the engine: the rate stamp moves to
/// now, the amnesty counter advances (clearing the cache when it wraps),
/// and every channel steps under its field; `cmds` holds exactly the
/// commands of the channels that applied, in channel order.
pub open spec fn frame_accepted(
    pre: Engine,
    post: Engine,
    fields: Seq<Seq<u8>>,
    now: u64,
    cmds: Seq<FrameCmd>,
) -> bool {
    let ceiling = pre.cfg.value_max as int;
    &&& post.cfg == pre.cfg
    &&& post.claim == pre.claim
    &&& post.last_accepted_ms == Option::Some(now)
    &&& post.frames_since_amnesty == if pre.frames_since_amnesty + 1 > AMNESTY {
        0int
    } else {
        pre.frames_since_amnesty + 1
    }
    &&& post.cache.entries@ == if pre.frames_since_amnesty + 1 > AMNESTY {
        Seq::<(u32, Vec<u8>)>::empty()
    } else {
        pre.cache.entries@
    }
    &&& post.channels@.len() == pre.channels@.len()
    &&& forall|i: int|
        0 <= i < pre.channels@.len() ==> post.channels@[i] == chan_next(
            #[trigger] pre.channels@[i],
            fields[i],
            ceiling,
        )
    &&& forall|k: int|
        0 <= k < cmds.len() ==> {
            let c = #[trigger] cmds[k];
            &&& 0 <= c.index < pre.channels@.len()
            &&& chan_emit(
                pre.channels@[c.index as int],
                fields[c.index as int],
                ceiling,
            ) matches Option::Some(v) && c.cmd == cmd_for(pre.cfg.dials@, c.index as int, v)
        }
    &&& forall|i: int|
        0 <= i < pre.channels@.len() && chan_emit(
            #[trigger] pre.channels@[i],
            fields[i],
            ceiling,
        ) is Some ==> has_cmd(cmds, i)
    &&& forall|k1: int, k2: int|
        0 <= k1 < k2 < cmds.len() ==> cmds[k1].index < cmds[k2].index
}

/// The routing engine's whole state.
pub struct Engine {
    pub cfg: Config,
    pub channels: Vec<ChannelState>,
    pub last_accepted_ms: Option<u64>,
    pub frames_since_amnesty: u64,
    pub cache: SessionCache,
    pub claim: Vec<Vec<u8>>,
}

impl Engine {
    /// Internal consistency: the snapshot is usable, the channel states
    /// run parallel to the channel list and stay in range, and the claim
    /// list holds exactly the claimed names.
    pub open spec fn wf(self) -> bool {
        &&& self.cfg.wf()
        &&& self.channels@.len() == self.cfg.dials@.len()
        &&& forall|i: int| 0 <= i < self.channels@.len() ==> (#[trigger] self.channels@[i]).wf()
        &&& forall|k: int|
            0 <= k < self.claim@.len() ==> is_claimed(self.cfg.dials@, #[trigger] self.claim@[k]@)
        &&& forall|j: int|
            0 <= j < self.cfg.dials@.len() ==> match claims_name(#[trigger] self.cfg.dials@[j]) {
                Option::Some(n) => in_list(self.claim@, n),
                Option::None => true,
            }
        &&& self.frames_since_amnesty <= AMNESTY
    }

    /// Builds an engine for a fresh link: every channel in its initial
    /// state, no frame accepted yet, an empty cache.
    pub fn new(cfg: Config) -> (r: Engine)
        requires
            cfg.wf(),
        ensures
            r.wf(),
            r.cfg == cfg,
            r.last_accepted_ms is None,
            r.frames_since_amnesty == 0,
            r.cache.entries@.len() == 0,
            r.channels@.len() == cfg.dials@.len(),
            forall|i: int|
                0 <= i < r.channels@.len() ==> r.channels@[i] == ChannelState::initial(),
    {
        let claim = claim_names(&cfg.dials);
        let n = cfg.dials.len();
        let mut channels: Vec<ChannelState> = Vec::new();
        let mut i: usize = 0;
        while i < n
            invariant
                i <= n,
                channels@.len() == i,
                forall|j: int| 0 <= j < i ==> channels@[j] == ChannelState::initial(),
            decreases n - i,
        {
            channels.push(ChannelState::fresh());
            i = i + 1;
        }
        Engine {
            cfg,
            channels,
            last_accepted_ms: None,
            frames_since_amnesty: 0,
            cache: SessionCache::new(),
            claim,
        }
    }

    /// Adopts a freshly loaded snapshot. Channel state survives when the
    /// link signature is unchanged — resized positionally, grown with
    /// initial state — and is rebuilt from scratch when the signature
    /// changed. The limiter, the amnesty counter and the cache start
    /// over either way, and the claim set is recomputed.
    pub fn reload(&mut self, new_cfg: Config)
        requires
            old(self).wf(),
            new_cfg.wf(),
        ensures
            final(self).wf(),
            final(self).cfg == new_cfg,
            final(self).last_accepted_ms is None,
            final(self).frames_since_amnesty == 0,
            final(self).cache.entries@.len() == 0,
            final(self).channels@.len() == new_cfg.dials@.len(),
            !same_signature(old(self).cfg, new_cfg) ==> forall|i: int|
                0 <= i < new_cfg.dials@.len() ==> final(self).channels@[i]
                    == ChannelState::initial(),
            same_signature(old(self).cfg, new_cfg) ==> forall|i: int|
                0 <= i < new_cfg.dials@.len() ==> final(self).channels@[i] == (if i < old(
                    self,
                ).channels@.len() {
                    old(self).channels@[i]
                } else {
                    ChannelState::initial()
                }),
    {
        let keep = check_same_signature(&self.cfg, &new_cfg);
        let n = new_cfg.dials.len();
        let mut channels: Vec<ChannelState> = Vec::new();
        let mut i: usize = 0;
        while i < n
            invariant
                i <= n,
                n == new_cfg.dials@.len(),
                channels@.len() == i,
                keep == same_signature(old(self).cfg, new_cfg),
                self.channels@ == old(self).channels@,
                forall|j: int| 0 <= j < old(self).channels@.len() ==> (#[trigger] old(
                    self,
                ).channels@[j]).wf(),
                forall|j: int|
                    0 <= j < i ==> channels@[j] == (if keep && j < old(self).channels@.len() {
                        old(self).channels@[j]
                    } else {
                        ChannelState::initial()
                    }),
            decreases n - i,
        {
            if keep && i < self.channels.len() {
                let st = self.channels[i];
                channels.push(st);
            } else {
                channels.push(ChannelState::fresh());
            }
            i = i + 1;
        }
        let claim = claim_names(&new_cfg.dials);
        self.cfg = new_cfg;
        self.channels = channels;
        self.last_accepted_ms = None;
        self.frames_since_amnesty = 0;
        self.cache.clear();
        self.claim = claim;
    }

    /// Routes one wire line at time `now_ms` (a monotonic millisecond
    /// clock). A blank line does nothing. A button line carries its
    /// configured switcher target out, bypassing the limiter and the
    /// smoothers. Any other line is a frame: it is dropped whole when
    /// its field count differs from the channel count or when it arrives
    /// within the rate interval; otherwise every decimal field steps its
    /// channel, and the channels whose stepped value passes the debounce
    /// gate contribute one command each, in channel order.
    #[verifier::loop_isolation(false)]
    #[verifier::rlimit(60)]
    pub fn handle_line(&mut self, line: &[u8], now_ms: u64) -> (r: LineOutcome)
        requires
            old(self).wf(),
        ensures
            final(self).wf(),
            ({
                let trimmed = trim_spec(line@);
                let fields = frame_fields(line@);
                let n = old(self).cfg.dials@.len();
                &&& (trimmed.len() == 0 ==> r is Ignored && *final(self) == *old(self))
                &&& (trimmed == works1_seq() ==> (r matches LineOutcome::Switch(t) && t@ == old(
                    self,
                ).cfg.work_device_1@) && *final(self) == *old(self))
                &&& (trimmed == works2_seq() ==> (r matches LineOutcome::Switch(t) && t@ == old(
                    self,
                ).cfg.work_device_2@) && *final(self) == *old(self))
                &&& (trimmed.len() > 0 && trimmed != works1_seq() && trimmed != works2_seq()
                    ==> {
                    &&& (fields.len() != n ==> r is Ignored && *final(self) == *old(self))
                    &&& (fields.len() == n && !rate_ok(old(self).last_accepted_ms, now_ms)
                        ==> r is Ignored && *final(self) == *old(self))
                    &&& (fields.len() == n && rate_ok(old(self).last_accepted_ms, now_ms) ==> (
                    r matches LineOutcome::Frame(cmds) && frame_accepted(
                        *old(self),
                        *final(self),
                        fields,
                        now_ms,
                        cmds@,
                    )))
                })
            }),
    {
        let trimmed = trim_bytes(line);
        if trimmed.len() == 0 {
            return LineOutcome::Ignored;
        }
        let w1 = works1_bytes();
        if bytes_eq(trimmed.as_slice(), w1.as_slice()) {
            let t = copy_range(self.cfg.work_device_1.as_slice(), 0, self.cfg.work_device_1.len());
            return LineOutcome::Switch(t);
        }
        let w2 = works2_bytes();
        if bytes_eq(trimmed.as_slice(), w2.as_slice()) {
            let t = copy_range(self.cfg.work_device_2.as_slice(), 0, self.cfg.work_device_2.len());
            return LineOutcome::Switch(t);
        }
        let fields = split_bytes(trimmed.as_slice(), PIPE);
        let ghost fields_spec = frame_fields(line@);
        proof {
            assert(fields_spec == split_spec(trimmed@, PIPE));
        }
        let n = self.cfg.dials.len();
        if fields.len() != n {
            return LineOutcome::Ignored;
        }
        let accept = match self.last_accepted_ms {
            None => true,
            Some(t) => now_ms >= t && now_ms - t >= RATE_MS,
        };
        if !accept {
            return LineOutcome::Ignored;
        }
        self.last_accepted_ms = Some(now_ms);
        if self.frames_since_amnesty + 1 > AMNESTY {
            self.cache.clear();
            self.frames_since_amnesty = 0;
            proof {
                assert(self.cache.entries@ =~= Seq::<(u32, Vec<u8>)>::empty());
            }
        } else {
            self.frames_since_amnesty = self.frames_since_amnesty + 1;
        }
        let ceiling = self.cfg.value_max;
        let mut new_channels: Vec<ChannelState> = Vec::new();
        let mut cmds: Vec<FrameCmd> = Vec::new();
        let mut i: usize = 0;
        while i < n
            invariant
                i <= n,
                new_channels@.len() == i,
                forall|j: int|
                    0 <= j < i ==> new_channels@[j] == chan_next(
                        #[trigger] old(self).channels@[j],
                        fields_spec[j],
                        ceiling as int,
                    ),
                forall|j: int| 0 <= j < i ==> (#[trigger] new_channels@[j]).wf(),
                forall|k: int|
                    0 <= k < cmds@.len() ==> {
                        let c = #[trigger] cmds@[k];
                        &&& 0 <= c.index < i
                        &&& chan_emit(
                            old(self).channels@[c.index as int],
                            fields_spec[c.index as int],
                            ceiling as int,
                        ) matches Option::Some(v) && c.cmd == cmd_for(
                            old(self).cfg.dials@,
                            c.index as int,
                            v,
                        )
                    },
                forall|j: int|
                    0 <= j < i && chan_emit(
                        #[trigger] old(self).channels@[j],
                        fields_spec[j],
                        ceiling as int,
                    ) is Some ==> has_cmd(cmds@, j),
                forall|k1: int, k2: int|
                    0 <= k1 < k2 < cmds@.len() ==> cmds@[k1].index < cmds@[k2].index,
            decreases n - i,
        {
            let mut st = self.channels[i];
            let ghost st_pre = st;
            let ghost f = fields_spec[i as int];
            proof {
                assert(fields@[i as int]@ == f);
            }
            match parse_decimal(fields[i].as_slice()) {
                Some(v) => {
                    proof {
                        lemma_norm_sat(dec_micros(f), ceiling as int);
                        lemma_norm_range(dec_micros(f), ceiling as int);
                    }
                    let x = normalize(v, ceiling);
                    let emitted = channel_step(&mut st, x);
                    new_channels.push(st);
                    let ghost cmds_pre = cmds@;
                    if let Some(vol) = emitted {
                        let is_system = match &self.cfg.dials[i] {
                            ChannelSpec::System => true,
                            _ => false,
                        };
                        let c = if is_system {
                            FrameCmd { index: i, cmd: ChannelCmd::Master(vol) }
                        } else {
                            FrameCmd { index: i, cmd: ChannelCmd::Sessions(vol) }
                        };
                        cmds.push(c);
                        proof {
                            assert(cmds@ =~= cmds_pre.push(c));
                            assert(cmds@[cmds@.len() - 1].index == i as int);
                            assert(has_cmd(cmds@, i as int));
                            assert forall|j: int|
                                0 <= j < i && chan_emit(
                                    #[trigger] old(self).channels@[j],
                                    fields_spec[j],
                                    ceiling as int,
                                ) is Some implies has_cmd(cmds@, j) by {
                                lemma_has_cmd_push(cmds_pre, c, j);
                            }
                        }
                    }
                },
                None => {
                    new_channels.push(st);
                },
            }
            i = i + 1;
        }
        self.channels = new_channels;
        LineOutcome::Frame(cmds)
    }

    /// The process ids in `pids` that channel `index` hits, in the order
    /// they were handed in.
    #[verifier::loop_isolation(false)]
    pub fn session_targets(&self, index: usize, pids: &Vec<u32>) -> (r: Vec<u32>)
        requires
            self.wf(),
            index < self.cfg.dials@.len(),
        ensures
            r@ == pids@.filter(
                |p: u32|
                    session_hit(
                        self.cfg.dials@[index as int],
                        self.cfg.dials@,
                        self.cache.entries@,
                        p,
                    ),
            ),
    {
        let ghost pred = |p: u32|
            session_hit(self.cfg.dials@[index as int], self.cfg.dials@, self.cache.entries@, p);
        let mut r: Vec<u32> = Vec::new();
        let mut i: usize = 0;
        proof {
            assert(pids@.take(0).filter(pred) =~= Seq::<u32>::empty()) by {
                reveal(Seq::filter);
                assert(pids@.take(0) =~= Seq::<u32>::empty());
            }
        }
        while i < pids.len()
            invariant
                i <= pids@.len(),
                r@ == pids@.take(i as int).filter(pred),
            decreases pids@.len() - i,
        {
            let p = pids[i];
            let hit: bool = if p == 0 {
                false
            } else {
                match &self.cfg.dials[index] {
                    ChannelSpec::System => false,
                    ChannelSpec::Process(t) => {
                        if t.len() == 0 {
                            false
                        } else {
                            let name = self.cache.name_or_empty(p);
                            let folded = lower_bytes(t.as_slice());
                            bytes_eq(name.as_slice(), folded.as_slice())
                        }
                    },
                    ChannelSpec::AllOthers => {
                        let name = self.cache.name_or_empty(p);
                        let listed = claim_contains(&self.claim, name.as_slice());
                        proof {
                            if listed {
                                let k = choose|k: int|
                                    0 <= k < self.claim@.len() && #[trigger] self.claim@[k]@
                                        == name@;
                                assert(is_claimed(self.cfg.dials@, name@));
                            }
                            if is_claimed(self.cfg.dials@, name@) {
                                let j = choose|j: int|
                                    0 <= j < self.cfg.dials@.len() && match #[trigger] self
                                        .cfg
                                        .dials@[j] {
                                        ChannelSpec::Process(t) => t@.len() > 0 && lower_spec(t@)
                                            == name@,
                                        _ => false,
                                    };
                                assert(claims_name(self.cfg.dials@[j]) == Option::Some(name@));
                                assert(in_list(self.claim@, name@));
                            }
                        }
                        !listed
                    },
                }
            };
            proof {
                assert(hit == pred(p));
                let pre = pids@.take(i as int);
                let post = pids@.take(i + 1 as int);
                assert(post.drop_last() =~= pre);
                assert(post.last() == p);
                reveal(Seq::filter);
                assert(post.filter(pred) == if pred(p) {
                    pre.filter(pred).push(p)
                } else {
                    pre.filter(pred)
                });
            }
            if hit {
                r.push(p);
            }
            i = i + 1;
        }
        proof {
            assert(pids@.take(pids@.len() as int) =~= pids@);
        }
        r
    }

    /// The process ids in `pids` that still need their name resolved:
    /// those without a cache row, the idle id left out.
    #[verifier::loop_isolation(false)]
    pub fn missing_names(&self, pids: &Vec<u32>) -> (r: Vec<u32>)
        ensures
            r@ == pids@.filter(|p: u32| p != 0 && !has_pid(self.cache.entries@, p)),
    {
        let ghost pred = |p: u32| p != 0 && !has_pid(self.cache.entries@, p);
        let mut r: Vec<u32> = Vec::new();
        let mut i: usize = 0;
        proof {
            assert(pids@.take(0).filter(pred) =~= Seq::<u32>::empty()) by {
                reveal(Seq::filter);
                assert(pids@.take(0) =~= Seq::<u32>::empty());
            }
        }
        while i < pids.len()
            invariant
                i <= pids@.len(),
                r@ == pids@.take(i as int).filter(pred),
            decreases pids@.len() - i,
        {
            let p = pids[i];
            let miss = p != 0 && !self.cache.contains(p);
            proof {
                assert(miss == pred(p));
                let pre = pids@.take(i as int);
                let post = pids@.take(i + 1 as int);
                assert(post.drop_last() =~= pre);
                assert(post.last() == p);
                reveal(Seq::filter);
                assert(post.filter(pred) == if pred(p) {
                    pre.filter(pred).push(p)
                } else {
                    pre.filter(pred)
                });
            }
            if miss {
                r.push(p);
            }
            i = i + 1;
        }
        proof {
            assert(pids@.take(pids@.len() as int) =~= pids@);
        }
        r
    }

    /// Records one resolved process name in the cache, folded. A process
    /// that already has a row, and the idle id, are left alone.
    pub fn record_name(&mut self, pid: u32, name: &[u8])
        requires
            old(self).wf(),
        ensures
            final(self).wf(),
            final(self).cfg == old(self).cfg,
            final(self).claim == old(self).claim,
            final(self).channels == old(self).channels,
            final(self).last_accepted_ms == old(self).last_accepted_ms,
            final(self).frames_since_amnesty == old(self).frames_since_amnesty,
            pid != 0 ==> name_of(final(self).cache.entries@, pid) == if has_pid(
                old(self).cache.entries@,
                pid,
            ) {
                name_of(old(self).cache.entries@, pid)
            } else {
                lower_spec(name@)
            },
    {
        self.cache.record(pid, name);
    }
}

/// Rate-limit law: after a frame accepted at time `t`, a frame `d`
/// milliseconds later is accepted exactly when the fixed interval has
/// passed.
pub proof fn lemma_rate_interval(t: u64, d: u64)
    requires
        t + d <= u64::MAX,
    ensures
        rate_ok(Option::Some(t), (t + d) as u64) == (d >= RATE_MS),
{
}

/// Normalization law: a decimal field's engine value is its clamped wire
/// value scaled against the ceiling, and always lies in `[0, UNIT]`.
pub proof fn lemma_field_value(f: Seq<u8>, ceiling: int)
    requires
        0 < ceiling <= VAL_CAP as int,
    ensures
        field_value(f, ceiling) == clamp_spec(dec_micros(f), ceiling) * (UNIT as int) / ceiling,
        0 <= field_value(f, ceiling) <= UNIT as int,
{
    lemma_norm_range(dec_micros(f), ceiling);
}

/// Claim-set law: a session bearing the folded target of any `Process`
/// channel is never hit by an `AllOthers` channel, wherever either
/// channel stands in the list.
pub proof fn lemma_all_others_excludes(
    dials: Seq<ChannelSpec>,
    cache: Seq<(u32, Vec<u8>)>,
    j: int,
    i: int,
    p: u32,
)
    requires
        0 <= j < dials.len(),
        dials[j] matches ChannelSpec::Process(t) && t@.len() > 0,
        0 <= i < dials.len(),
        dials[i] is AllOthers,
        name_of(cache, p) == lower_spec(dials[j]->Process_0@),
    ensures
        !session_hit(dials[i], dials, cache, p),
{
    lemma_claim_set_covers(dials, j);
}

} // verus!
