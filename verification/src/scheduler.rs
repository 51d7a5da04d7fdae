//! Multi-path scheduling: which path carries each symbol.
//!
//! A transfer has up to N edge relays plus one optional P2P direct channel.
//! Symbols are interchangeable (rateless fountain), so any deterministic
//! spread is valid; the scheduler keeps the requested relay/direct ratio while
//! round-robining the relay load across the N relays.
use vstd::arithmetic::div_mod::{
    lemma_fundamental_div_mod, lemma_fundamental_div_mod_converse, lemma_mod_bound,
    lemma_mod_self_0, lemma_small_mod,
};
use vstd::prelude::*;

verus! {

/// Spreads symbols over the paths of a transfer.
#[derive(Debug, Clone)]
pub struct MultiPathScheduler {
    relay_share: u64,
    total_share: u64,
    n_relays: usize,
    next_relay: usize,
}

/// What a scheduler goes by.
pub struct SchedulerView {
    /// How many of `total_share` symbols go over relays.
    pub relay_share: nat,
    pub total_share: nat,
    /// The number of relays.
    pub n_relays: nat,
    /// The relay that is next in turn.
    pub next_relay: nat,
}

impl SchedulerView {
    /// A scheduler for one relay that splits symbols by bandwidth; evenly if
    /// there is none to go by.
    pub open spec fn split(p2p_bw: nat, relay_bw: nat) -> SchedulerView {
        SchedulerView {
            relay_share: if p2p_bw + relay_bw == 0 {
                1
            } else {
                relay_bw
            },
            total_share: if p2p_bw + relay_bw == 0 {
                2
            } else {
                p2p_bw + relay_bw
            },
            n_relays: 1,
            next_relay: 0,
        }
    }

    /// The same scheduler over `n` relays, and over one if there is none.
    pub open spec fn over(self, n: nat) -> SchedulerView {
        SchedulerView {
            n_relays: if n == 0 {
                1
            } else {
                n
            },
            ..self
        }
    }

    /// Whether the shares make a ratio.
    pub open spec fn has_ratio(self) -> bool {
        self.relay_share <= self.total_share && self.total_share > 0
    }

    /// Whether symbol `seq` goes over a relay: the multiple `seq` of the ratio
    /// has a fractional part below the ratio.
    pub open spec fn relays(self, seq: u32) -> bool {
        (seq as nat * self.relay_share) % self.total_share < self.relay_share
    }

    /// The path of symbol `seq`: a relay index, or `None` for the direct
    /// channel.
    pub open spec fn picked(self, seq: u32) -> Option<nat> {
        if self.relays(seq) {
            Some(self.next_relay)
        } else {
            None
        }
    }

    /// The scheduler after symbol `seq`.
    pub open spec fn after(self, seq: u32) -> SchedulerView {
        if self.relays(seq) {
            SchedulerView { next_relay: (self.next_relay + 1) % self.n_relays, ..self }
        } else {
            self
        }
    }

    /// The scheduler after several symbols.
    pub open spec fn after_all(self, seqs: Seq<u32>) -> SchedulerView
        decreases seqs.len(),
    {
        if seqs.len() == 0 {
            self
        } else {
            self.after_all(seqs.drop_last()).after(seqs.last())
        }
    }

    /// How many of several symbols relay `i` carries.
    pub open spec fn load(self, seqs: Seq<u32>, i: nat) -> nat
        decreases seqs.len(),
    {
        if seqs.len() == 0 {
            0
        } else {
            self.load(seqs.drop_last(), i) + (if self.after_all(seqs.drop_last()).picked(
                seqs.last(),
            ) == Some(i) {
                1nat
            } else {
                0nat
            })
        }
    }

    /// How many of several symbols go over relays.
    pub open spec fn relayed(self, seqs: Seq<u32>) -> nat
        decreases seqs.len(),
    {
        if seqs.len() == 0 {
            0
        } else {
            self.relayed(seqs.drop_last()) + (if self.relays(seqs.last()) {
                1nat
            } else {
                0nat
            })
        }
    }
}

/// The `n` symbols from `start` on.
pub open spec fn run(start: nat, n: nat) -> Seq<u32> {
    Seq::new(n, |i: int| (start + i) as u32)
}

impl View for MultiPathScheduler {
    type V = SchedulerView;

    closed spec fn view(&self) -> SchedulerView {
        SchedulerView {
            relay_share: self.relay_share as nat,
            total_share: self.total_share as nat,
            n_relays: self.n_relays as nat,
            next_relay: self.next_relay as nat,
        }
    }
}

impl MultiPathScheduler {
    /// Whether the shares make a ratio, there is a relay, and a turn can be
    /// counted on.
    pub closed spec fn wf(&self) -> bool {
        &&& self@.has_ratio()
        &&& self.n_relays > 0
        &&& self.next_relay < usize::MAX
    }

    /// A scheduler for one relay that splits symbols by bandwidth; evenly if
    /// there is none to go by.
    pub fn new(p2p_bw: u64, relay_bw: u64) -> (scheduler: Self)
        requires
            p2p_bw + relay_bw <= u64::MAX,
        ensures
            scheduler.wf(),
            scheduler@ == SchedulerView::split(p2p_bw as nat, relay_bw as nat),
    {
        let total: u64 = p2p_bw + relay_bw;
        if total == 0 {
            MultiPathScheduler { relay_share: 1, total_share: 2, n_relays: 1, next_relay: 0 }
        } else {
            MultiPathScheduler {
                relay_share: relay_bw,
                total_share: total,
                n_relays: 1,
                next_relay: 0,
            }
        }
    }

    /// Sets the number of edge relays the sender is connected to; at least one.
    pub fn with_relays(self, n: usize) -> (scheduler: Self)
        requires
            self.wf(),
        ensures
            scheduler.wf(),
            scheduler@ == (SchedulerView {
                n_relays: (if n == 0 {
                    1
                } else {
                    n as nat
                }),
                ..self@
            }),
            scheduler@ == self@.over(n as nat),
    {
        let n_relays: usize = if n == 0 {
            1
        } else {
            n
        };
        MultiPathScheduler { n_relays, ..self }
    }

    /// For symbol `seq`, returns the relay index that should carry it, or
    /// `None` when it should go over the P2P direct channel.
    ///
    /// The relay load is round-robined over the N relays with an independent
    /// counter, so the relay/direct ratio never correlates with the relay
    /// index.
    pub fn pick(&mut self, seq: u32) -> (path: Option<usize>)
        requires
            old(self).wf(),
        ensures
            final(self).wf(),
            final(self)@ == old(self)@.after(seq),
            match path {
                Some(i) => old(self)@.picked(seq) == Some(i as nat),
                None => old(self)@.picked(seq) is None,
            },
    {
        proof {
            let a = seq as int;
            let b = self.relay_share as int;
            assert(0 <= a * b <= 0xFFFF_FFFF * 0xFFFF_FFFF_FFFF_FFFF) by (nonlinear_arith)
                requires
                    0 <= a <= 0xFFFF_FFFF,
                    0 <= b <= 0xFFFF_FFFF_FFFF_FFFF,
            ;
        }
        let multiple: u128 = seq as u128 * self.relay_share as u128;
        if multiple % (self.total_share as u128) < self.relay_share as u128 {
            let i: usize = self.next_relay;
            self.next_relay = (self.next_relay + 1) % self.n_relays;
            Some(i)
        } else {
            None
        }
    }
}

/// Stepping back by `r` lowers the quotient by one exactly if the remainder is
/// below `r`.
proof fn lemma_quotient_step(x: int, r: int, t: int)
    requires
        0 <= r <= t,
        t > 0,
    ensures
        x / t - (x - r) / t == (if x % t < r {
            1int
        } else {
            0int
        }),
{
    lemma_fundamental_div_mod(x, t);
    lemma_mod_bound(x, t);
    let q = x / t;
    let m = x % t;
    if m < r {
        assert(x - r == (q - 1) * t + (m - r + t)) by (nonlinear_arith)
            requires
                x == t * q + m,
        ;
        lemma_fundamental_div_mod_converse(x - r, t, q - 1, m - r + t);
    } else {
        assert(x - r == q * t + (m - r)) by (nonlinear_arith)
            requires
                x == t * q + m,
        ;
        lemma_fundamental_div_mod_converse(x - r, t, q, m - r);
    }
}

/// The relayed symbols of a run, as a difference of quotients.
proof fn lemma_run(s: SchedulerView, start: nat, n: nat)
    requires
        s.has_ratio(),
        start + n <= 0x1_0000_0000,
    ensures
        s.relayed(run(start, n)) == ((start + n) * s.relay_share - s.relay_share)
            / s.total_share as int - (start * s.relay_share - s.relay_share) / s.total_share as int,
    decreases n,
{
    if n > 0 {
        let m = (n - 1) as nat;
        assert(run(start, n).drop_last() =~= run(start, m));
        lemma_run(s, start, m);
        let seq = start + m;
        let r = s.relay_share as int;
        assert((seq + 1) * r == seq * r + r) by (nonlinear_arith);
        lemma_quotient_step(seq * r, r, s.total_share as int);
        assert((seq as u32) as nat * s.relay_share == seq * r);
    }
}

/// The requested ratio is kept: of any run of consecutive symbols, from
/// wherever it starts, relays carry their share to within less than one symbol.
pub proof fn law_ratio_is_kept(s: SchedulerView, start: nat, n: nat)
    requires
        s.has_ratio(),
        start + n <= 0x1_0000_0000,
    ensures
        n * s.relay_share - s.total_share < s.relayed(run(start, n)) * s.total_share,
        s.relayed(run(start, n)) * s.total_share < n * s.relay_share + s.total_share,
{
    lemma_run(s, start, n);
    let r = s.relay_share as int;
    let t = s.total_share as int;
    let a = start as int;
    let b = n as int;
    let x = (a + b) * r - r;
    let y = a * r - r;
    lemma_fundamental_div_mod(x, t);
    lemma_fundamental_div_mod(y, t);
    lemma_mod_bound(x, t);
    lemma_mod_bound(y, t);
    let p = x / t;
    let q = y / t;
    assert(x - y == b * r) by (nonlinear_arith)
        requires
            x == (a + b) * r - r,
            y == a * r - r,
    ;
    assert((p - q) * t == p * t - q * t && p * t == t * p && q * t == t * q) by (nonlinear_arith);
    assert(b * r - t < (p - q) * t < b * r + t);
}

/// The requested ratio is kept in terms of the bandwidths that were asked for: a
/// scheduler made from them lets the relays carry as large a share of any run of
/// symbols as they have of the bandwidth, to within less than one symbol, and
/// half of it if there is no bandwidth. The number of relays does not matter.
pub proof fn law_bandwidths_are_kept(
    p2p_bw: nat,
    relay_bw: nat,
    n_relays: nat,
    start: nat,
    n: nat,
)
    requires
        start + n <= 0x1_0000_0000,
    ensures
        ({
            let s = SchedulerView { n_relays, ..SchedulerView::split(p2p_bw, relay_bw) };
            let relayed = s.relayed(run(start, n));
            let direct = n - relayed;
            let total = p2p_bw + relay_bw;
            &&& 0 <= relayed <= n
            &&& total > 0 ==> n * relay_bw - total < relayed * total < n * relay_bw + total
            &&& total > 0 ==> n * p2p_bw - total < direct * total < n * p2p_bw + total
            &&& total == 0 ==> -1 <= relayed - direct <= 1
            &&& s.next_relay == 0
            &&& SchedulerView::split(p2p_bw, relay_bw).n_relays == 1
        }),
{
    let s = SchedulerView { n_relays, ..SchedulerView::split(p2p_bw, relay_bw) };
    let total = (p2p_bw + relay_bw) as int;
    lemma_relayed_len(s, run(start, n));
    if total > 0 {
        law_ratio_is_kept(s, start, n);
        let c = s.relayed(run(start, n)) as int;
        let m = n as int;
        let p = p2p_bw as int;
        let r = relay_bw as int;
        assert((m - c) * total == m * p + m * r - c * total) by (nonlinear_arith)
            requires
                total == p + r,
        ;
    } else {
        law_balanced_split(s, start, n);
    }
}

/// The number of relays is what it is set to, but for none, which counts as one,
/// and changes neither shares nor turn.
pub proof fn law_number_of_relays(s: SchedulerView, n: nat)
    ensures
        n > 0 ==> s.over(n).n_relays == n,
        s.over(0).n_relays == 1,
        s.over(n).relay_share == s.relay_share,
        s.over(n).total_share == s.total_share,
        s.over(n).next_relay == s.next_relay,
{
}

/// All over relays if there is no P2P bandwidth, and nothing over relays if there
/// is no relay bandwidth.
pub proof fn law_one_sided_bandwidth(bw: nat, seq: u32)
    requires
        bw > 0,
    ensures
        SchedulerView::split(0, bw).relays(seq),
        !SchedulerView::split(bw, 0).relays(seq),
{
    lemma_mod_bound(seq as int * bw as int, bw as int);
    assert(seq as nat * bw == seq as int * bw as int);
}

/// A relayed symbol goes to the relay that is next in turn, the one after it to
/// the next relay, counted round, and direct symbols leave the turn alone.
/// Whatever goes where, the shares and the number of relays stay.
pub proof fn law_turns_go_round(s: SchedulerView, a: u32, b: u32)
    requires
        s.next_relay < s.n_relays,
    ensures
        s.after(a).relay_share == s.relay_share,
        s.after(a).total_share == s.total_share,
        s.after(a).n_relays == s.n_relays,
        s.after(a).next_relay < s.n_relays,
        s.picked(a) is Some <==> s.relays(a),
        s.picked(a) matches Some(i) ==> i == s.next_relay,
        s.picked(a) is None ==> s.after(a).picked(b) == s.picked(b),
        s.picked(a) matches Some(i) ==> (s.after(a).picked(b) matches Some(j) ==> (j == i + 1 || (i
            + 1 == s.n_relays && j == 0))),
        s.picked(b) is Some <==> s.after(a).picked(b) is Some,
{
    lemma_mod_bound(s.next_relay as int + 1, s.n_relays as int);
    if s.next_relay + 1 < s.n_relays {
        lemma_small_mod(s.next_relay + 1, s.n_relays);
    } else {
        lemma_mod_self_0(s.n_relays as int);
    }
}

/// With equal shares every other symbol goes over a relay: the even ones.
pub proof fn law_equal_shares_alternate(s: SchedulerView, seq: u32)
    requires
        s.relay_share > 0,
        s.total_share == 2 * s.relay_share,
    ensures
        s.relays(seq) <==> seq % 2 == 0,
{
    let r = s.relay_share as int;
    let t = s.total_share as int;
    let h = seq as int / 2;
    if seq % 2 == 0 {
        assert(seq * r == h * t + 0) by (nonlinear_arith)
            requires
                seq == 2 * h,
                t == 2 * r,
        ;
        lemma_fundamental_div_mod_converse(seq * r, t, h, 0);
    } else {
        assert(seq * r == h * t + r) by (nonlinear_arith)
            requires
                seq == 2 * h + 1,
                t == 2 * r,
        ;
        lemma_fundamental_div_mod_converse(seq * r, t, h, r);
    }
    assert(seq as nat * s.relay_share == seq * r);
}

/// With equal shares, of any run of consecutive symbols, from wherever it
/// starts, relays and the direct channel carry the same number, to within one.
pub proof fn law_balanced_split(s: SchedulerView, start: nat, n: nat)
    requires
        s.relay_share > 0,
        s.total_share == 2 * s.relay_share,
        start + n <= 0x1_0000_0000,
    ensures
        s.relayed(run(start, n)) <= n,
        -1 <= s.relayed(run(start, n)) - (n - s.relayed(run(start, n))) <= 1,
{
    let r = s.relay_share as int;
    let t = s.total_share as int;
    lemma_relayed_len(s, run(start, n));
    law_ratio_is_kept(s, start, n);
    let c = s.relayed(run(start, n)) as int;
    let m = n as int;
    assert(c * t == (2 * c) * r) by (nonlinear_arith)
        requires
            t == 2 * r,
    ;
    assert(m - 2 < 2 * c < m + 2) by (nonlinear_arith)
        requires
            r > 0,
            m * r - 2 * r < (2 * c) * r,
            (2 * c) * r < m * r + 2 * r,
    ;
}

/// No more symbols are relayed than there are.
proof fn lemma_relayed_len(s: SchedulerView, seqs: Seq<u32>)
    ensures
        s.relayed(seqs) <= seqs.len(),
    decreases seqs.len(),
{
    if seqs.len() > 0 {
        lemma_relayed_len(s, seqs.drop_last());
    }
}

/// How many of `n` relayed symbols relay `i` of `m` carries when the turn
/// starts at relay 0.
pub open spec fn fair_share(n: nat, m: nat, i: nat) -> nat {
    if i < n % m {
        n / m + 1
    } else {
        n / m
    }
}

/// One more turn.
proof fn lemma_turn(n: nat, m: nat, i: nat)
    requires
        m > 0,
        i < m,
    ensures
        (n + 1) % m == ((n % m) + 1) % m,
        fair_share(n + 1, m, i) == fair_share(n, m, i) + (if n % m == i {
            1nat
        } else {
            0nat
        }),
{
    let q = n / m;
    let r = n % m;
    lemma_fundamental_div_mod(n as int, m as int);
    if r + 1 < m {
        assert(n + 1 == m * q + (r + 1));
        assert(q * m == m * q) by (nonlinear_arith);
        lemma_fundamental_div_mod_converse((n + 1) as int, m as int, q as int, (r + 1) as int);
        lemma_small_mod(r + 1, m);
    } else {
        assert(n + 1 == (q + 1) * m + 0) by (nonlinear_arith)
            requires
                n == m * q + r,
                r + 1 == m,
        ;
        lemma_fundamental_div_mod_converse((n + 1) as int, m as int, (q + 1) as int, 0);
        lemma_mod_self_0(m as int);
    }
}

/// Whatever the order of relayed and direct symbols, the relays share the
/// relayed ones evenly: after any number of symbols the loads of two relays
/// differ by at most one, and no relay is starved once each had its turn.
pub proof fn law_relays_share_evenly(s: SchedulerView, seqs: Seq<u32>, i: nat, j: nat)
    requires
        s.next_relay == 0,
        i < s.n_relays,
        j < s.n_relays,
    ensures
        s.load(seqs, i) <= s.load(seqs, j) + 1,
        s.relayed(seqs) >= s.n_relays ==> s.load(seqs, i) >= 1,
        s.after_all(seqs).next_relay < s.n_relays,
{
    lemma_load(s, seqs, i);
    lemma_load(s, seqs, j);
    let n = s.relayed(seqs);
    let m = s.n_relays;
    if n >= m {
        assert(n / m >= 1) by (nonlinear_arith)
            requires
                n >= m,
                m > 0,
        ;
    }
}

/// The load of a relay is its fair share.
proof fn lemma_load(s: SchedulerView, seqs: Seq<u32>, i: nat)
    requires
        s.next_relay == 0,
        i < s.n_relays,
    ensures
        s.load(seqs, i) == fair_share(s.relayed(seqs), s.n_relays, i),
        s.after_all(seqs) == (SchedulerView {
            next_relay: s.relayed(seqs) % s.n_relays,
            ..s
        }),
        s.after_all(seqs).next_relay < s.n_relays,
    decreases seqs.len(),
{
    let m = s.n_relays;
    if seqs.len() == 0 {
        lemma_small_mod(0, m);
        assert(0nat / m == 0) by (nonlinear_arith)
            requires
                m > 0,
        ;
    } else {
        let rest = seqs.drop_last();
        lemma_load(s, rest, i);
        lemma_turn(s.relayed(rest), m, i);
        lemma_mod_bound((s.relayed(rest) + 1) as int, m as int);
    }
}

} // verus!
