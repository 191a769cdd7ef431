//! The configuration snapshot: serial link parameters, channel
//! definitions, the normalization ceiling and the switcher targets.
//! A snapshot is an immutable value; the engine never edits one.

use vstd::prelude::*;
use crate::num::VAL_CAP;
use crate::text::lower_spec;
use crate::text::lower_bytes;
use crate::text::bytes_eq;
use crate::devices::none_seq;
use crate::devices::none_bytes;

verus! {

/// One configured channel: what the value at its wire position controls.
#[derive(Clone, Debug)]
pub enum ChannelSpec {
    /// The default endpoint's master volume.
    System,
    /// The volume of the sessions of one named process. An empty name
    /// names no process and the channel does nothing.
    Process(Vec<u8>),
    /// The volume of every session not claimed by a `Process` channel.
    AllOthers,
}

/// Serial link parameters.
#[derive(Clone, Debug)]
pub struct SerialConfig {
    pub port: Vec<u8>,
    pub baud: u32,
    pub timeout_ms: u64,
}

/// The whole configuration snapshot.
#[derive(Clone, Debug)]
pub struct Config {
    pub serial: SerialConfig,
    /// Normalization ceiling in micro-units; wire values are clamped to
    /// `[0, value_max]` and scaled so the ceiling maps to full volume.
    pub value_max: u64,
    /// Path to the device-switch helper, kept for the caller that spawns it.
    pub helper_path: Vec<u8>,
    /// Display-name fragment of the first switcher target.
    pub work_device_1: Vec<u8>,
    /// Display-name fragment of the second switcher target.
    pub work_device_2: Vec<u8>,
    /// The channels, in wire order.
    pub dials: Vec<ChannelSpec>,
}

impl Config {
    /// A usable snapshot: the ceiling is positive and within the range
    /// the fixed-point arithmetic covers.
    pub open spec fn wf(self) -> bool {
        0 < self.value_max <= VAL_CAP
    }

    /// Runtime check of `wf`, for callers that build a snapshot from
    /// outside data.
    pub fn check_wf(&self) -> (r: bool)
        ensures
            r == self.wf(),
    {
        0 < self.value_max && self.value_max <= VAL_CAP
    }
}

/// The bytes of the default serial port name, "COM3".
pub open spec fn default_port_seq() -> Seq<u8> {
    seq![67u8, 79u8, 77u8, 51u8]
}

impl Default for Config {
    /// The configuration a fresh installation starts from: the usual
    /// first serial port at 9600 baud, a 50 ms read timeout, a ceiling
    /// of 1024 units, no helper, both switcher targets off, no channels.
    fn default() -> (r: Config)
        ensures
            r.wf(),
            r.serial.port@ == default_port_seq(),
            r.serial.baud == 9600,
            r.serial.timeout_ms == 50,
            r.value_max == 1_024_000_000u64,
            r.helper_path@.len() == 0,
            r.work_device_1@ == none_seq(),
            r.work_device_2@ == none_seq(),
            r.dials@.len() == 0,
    {
        let mut port: Vec<u8> = Vec::new();
        port.push(67);
        port.push(79);
        port.push(77);
        port.push(51);
        proof {
            assert(port@ =~= default_port_seq());
        }
        Config {
            serial: SerialConfig { port, baud: 9600, timeout_ms: 50 },
            value_max: 1_024_000_000,
            helper_path: Vec::new(),
            work_device_1: none_bytes(),
            work_device_2: none_bytes(),
            dials: Vec::new(),
        }
    }
}

/// Whether two snapshots name the same physical link: same port name and
/// same baud rate. Only a change of this signature resets channel state.
pub open spec fn same_signature(a: Config, b: Config) -> bool {
    a.serial.port@ == b.serial.port@ && a.serial.baud == b.serial.baud
}

pub fn check_same_signature(a: &Config, b: &Config) -> (r: bool)
    ensures
        r == same_signature(*a, *b),
{
    bytes_eq(a.serial.port.as_slice(), b.serial.port.as_slice()) && a.serial.baud == b.serial.baud
}

/// Whether `name` is claimed by some `Process` channel: it equals the
/// folded target of a channel with a non-empty target. Membership only
/// looks at which channels are present, never at their order.
pub open spec fn is_claimed(dials: Seq<ChannelSpec>, name: Seq<u8>) -> bool {
    exists|j: int|
        0 <= j < dials.len() && match #[trigger] dials[j] {
            ChannelSpec::Process(t) => t@.len() > 0 && lower_spec(t@) == name,
            _ => false,
        }
}

/// Whether `name` stands in a list of byte strings.
pub open spec fn in_list(r: Seq<Vec<u8>>, name: Seq<u8>) -> bool {
    exists|k: int| 0 <= k < r.len() && #[trigger] r[k]@ == name
}

proof fn lemma_in_list_push(r: Seq<Vec<u8>>, x: Vec<u8>, name: Seq<u8>)
    requires
        in_list(r, name),
    ensures
        in_list(r.push(x), name),
{
    let k0 = choose|k: int| 0 <= k < r.len() && #[trigger] r[k]@ == name;
    assert(r.push(x)[k0]@ == name);
}

/// What claims the channel, if anything: the folded non-empty target of
/// a `Process` channel.
pub open spec fn claims_name(d: ChannelSpec) -> Option<Seq<u8>> {
    match d {
        ChannelSpec::Process(t) => if t@.len() > 0 {
            Option::Some(lower_spec(t@))
        } else {
            Option::None
        },
        _ => Option::None,
    }
}

/// The claim set as a list of folded names, one entry per claiming
/// channel, computed once per configuration load. The list holds exactly
/// the claimed names.
pub fn claim_names(dials: &Vec<ChannelSpec>) -> (r: Vec<Vec<u8>>)
    ensures
        forall|k: int| 0 <= k < r@.len() ==> is_claimed(dials@, #[trigger] r@[k]@),
        forall|j: int|
            0 <= j < dials@.len() ==> match claims_name(#[trigger] dials@[j]) {
                Option::Some(n) => in_list(r@, n),
                Option::None => true,
            },
{
    let mut r: Vec<Vec<u8>> = Vec::new();
    let n = dials.len();
    let mut j: usize = 0;
    while j < n
        invariant
            j <= n,
            n == dials@.len(),
            forall|k: int| 0 <= k < r@.len() ==> is_claimed(dials@, #[trigger] r@[k]@),
            forall|i: int|
                0 <= i < j ==> match claims_name(#[trigger] dials@[i]) {
                    Option::Some(n2) => in_list(r@, n2),
                    Option::None => true,
                },
        decreases n - j,
    {
        let ghost rpre = r@;
        let mut pushed = false;
        match &dials[j] {
            ChannelSpec::Process(t) => {
                if t.len() > 0 {
                    let folded = lower_bytes(t.as_slice());
                    r.push(folded);
                    pushed = true;
                    proof {
                        assert(dials@[j as int] matches ChannelSpec::Process(tt) && tt@ == t@);
                        assert(r@[r@.len() - 1]@ == lower_spec(t@));
                        assert(is_claimed(dials@, lower_spec(t@)));
                        assert(in_list(r@, lower_spec(t@)));
                    }
                }
            },
            _ => {},
        }
        proof {
            assert forall|i: int|
                0 <= i < j + 1 implies match claims_name(#[trigger] dials@[i]) {
                Option::Some(n2) => in_list(r@, n2),
                Option::None => true,
            } by {
                match claims_name(dials@[i]) {
                    Option::Some(n2) => {
                        if i < j {
                            assert(in_list(rpre, n2));
                            if pushed {
                                lemma_in_list_push(rpre, r@.last(), n2);
                                assert(r@ =~= rpre.push(r@.last()));
                            }
                        }
                    },
                    Option::None => {},
                }
            }
        }
        j = j + 1;
    }
    r
}

/// Membership in the computed claim list.
pub fn claim_contains(claim: &Vec<Vec<u8>>, name: &[u8]) -> (r: bool)
    ensures
        r == in_list(claim@, name@),
{
    let mut k: usize = 0;
    while k < claim.len()
        invariant
            k <= claim@.len(),
            forall|i: int| 0 <= i < k ==> #[trigger] claim@[i]@ != name@,
        decreases claim@.len() - k,
    {
        if bytes_eq(claim[k].as_slice(), name) {
            return true;
        }
        k = k + 1;
    }
    false
}

/// The claim set never misses a configured process name: a name written
/// on any `Process` channel is claimed, wherever in the list the channel
/// stands.
pub proof fn lemma_claim_set_covers(dials: Seq<ChannelSpec>, j: int)
    requires
        0 <= j < dials.len(),
        dials[j] matches ChannelSpec::Process(t) && t@.len() > 0,
    ensures
        is_claimed(dials, lower_spec(dials[j]->Process_0@)),
{
}

/// The claim set only looks at which channels are present: two channel
/// lists with the same members claim the same names, whatever their
/// order or repetition.
pub proof fn lemma_claim_set_order_blind(a: Seq<ChannelSpec>, b: Seq<ChannelSpec>, name: Seq<u8>)
    requires
        forall|j: int| 0 <= j < a.len() ==> b.contains(#[trigger] a[j]),
        forall|j: int| 0 <= j < b.len() ==> a.contains(#[trigger] b[j]),
    ensures
        is_claimed(a, name) == is_claimed(b, name),
{
    if is_claimed(a, name) {
        let j = choose|j: int|
            0 <= j < a.len() && match #[trigger] a[j] {
                ChannelSpec::Process(t) => t@.len() > 0 && lower_spec(t@) == name,
                _ => false,
            };
        assert(b.contains(a[j]));
        let k = choose|k: int| 0 <= k < b.len() && b[k] == a[j];
        assert(is_claimed(b, name));
    }
    if is_claimed(b, name) {
        let j = choose|j: int|
            0 <= j < b.len() && match #[trigger] b[j] {
                ChannelSpec::Process(t) => t@.len() > 0 && lower_spec(t@) == name,
                _ => false,
            };
        assert(a.contains(b[j]));
        let k = choose|k: int| 0 <= k < a.len() && a[k] == b[j];
        assert(is_claimed(a, name));
    }
}

} // verus!
