//! QSPI on recorded channels: which channel plays which part, where the bus is
//! selected, and which bytes it carries.

use vstd::prelude::*;

use crate::waveform::edges;
use crate::waveform::edges::EdgeStore;
use crate::waveform::signal;
use crate::waveform::signal::{count_less, is_sorted, ChannelView};

verus! {

#[derive(Clone, Copy, PartialEq, Eq, Debug, Structural)]
pub enum QspiRole {
    Clk,
    Cs,
    D0,
    D1,
    D2,
    D3,
}

impl QspiRole {
    /// All roles, in the order in which they are offered.
    pub fn all() -> (roles: [QspiRole; 6])
        ensures
            roles@ == seq![
                QspiRole::Clk,
                QspiRole::Cs,
                QspiRole::D0,
                QspiRole::D1,
                QspiRole::D2,
                QspiRole::D3,
            ],
    {
        [QspiRole::Clk, QspiRole::Cs, QspiRole::D0, QspiRole::D1, QspiRole::D2, QspiRole::D3]
    }

    /// Name of the line; the select line is active low.
    pub open spec fn label_text(self) -> Seq<char> {
        match self {
            QspiRole::Clk => "CLK"@,
            QspiRole::Cs => "!CS"@,
            QspiRole::D0 => "D0"@,
            QspiRole::D1 => "D1"@,
            QspiRole::D2 => "D2"@,
            QspiRole::D3 => "D3"@,
        }
    }

    pub fn label(self) -> (text: &'static str)
        ensures
            text@ == self.label_text(),
    {
        match self {
            QspiRole::Clk => "CLK",
            QspiRole::Cs => "!CS",
            QspiRole::D0 => "D0",
            QspiRole::D1 => "D1",
            QspiRole::D2 => "D2",
            QspiRole::D3 => "D3",
        }
    }
}

/// Role that channel `i` starts with.
pub open spec fn initial_role(i: int) -> QspiRole {
    if i % 6 == 0 {
        QspiRole::D0
    } else if i % 6 == 1 {
        QspiRole::D1
    } else if i % 6 == 2 {
        QspiRole::D2
    } else if i % 6 == 3 {
        QspiRole::D3
    } else if i % 6 == 4 {
        QspiRole::Clk
    } else {
        QspiRole::Cs
    }
}

/// Roles after channel `ch` takes `role`: the first channel that had the role
/// gets the role that `ch` had.
pub open spec fn reassigned(roles: Seq<QspiRole>, ch: int, role: QspiRole) -> Seq<QspiRole> {
    if roles[ch] == role {
        roles
    } else {
        match roles.index_of_first(role) {
            Some(other) => roles.update(other, roles[ch]).update(ch, role),
            None => roles.update(ch, role),
        }
    }
}

pub struct QspiConfig {
    pub enabled: bool,
    pub channel_roles: Vec<QspiRole>,
}

impl QspiConfig {
    /// First channel that plays `role`.
    pub open spec fn role_channel(&self, role: QspiRole) -> Option<int> {
        self.channel_roles@.index_of_first(role)
    }

    /// Whether the channel that plays `role`, if any, is among the first `n`.
    pub open spec fn role_within(&self, role: QspiRole, n: int) -> bool {
        match self.role_channel(role) {
            Some(ch) => ch < n,
            None => true,
        }
    }

    pub fn new(num_channels: usize) -> (config: Self)
        ensures
            !config.enabled,
            config.channel_roles@ == Seq::new(num_channels as nat, |i: int| initial_role(i)),
    {
        let roles: [QspiRole; 6] = [
            QspiRole::D0,
            QspiRole::D1,
            QspiRole::D2,
            QspiRole::D3,
            QspiRole::Clk,
            QspiRole::Cs,
        ];
        let mut channel_roles: Vec<QspiRole> = Vec::new();
        let mut i: usize = 0;
        while i < num_channels
            invariant
                i <= num_channels,
                roles@ == seq![
                    QspiRole::D0,
                    QspiRole::D1,
                    QspiRole::D2,
                    QspiRole::D3,
                    QspiRole::Clk,
                    QspiRole::Cs,
                ],
                channel_roles@ == Seq::new(i as nat, |k: int| initial_role(k)),
            decreases num_channels - i,
        {
            channel_roles.push(roles[i % 6]);
            i = i + 1;
            assert(channel_roles@ =~= Seq::new(i as nat, |k: int| initial_role(k)));
        }
        QspiConfig { enabled: false, channel_roles }
    }

    /// The first channel that plays `role`.
    pub fn channel_for(&self, role: QspiRole) -> (channel: Option<usize>)
        ensures
            match channel {
                Some(ch) => {
                    &&& self.role_channel(role) == Some(ch as int)
                    &&& ch < self.channel_roles@.len()
                    &&& self.channel_roles@[ch as int] == role
                    &&& forall|j: int| 0 <= j < ch ==> self.channel_roles@[j] != role
                },
                None => {
                    &&& self.role_channel(role) is None
                    &&& !self.channel_roles@.contains(role)
                },
            },
    {
        let mut i: usize = 0;
        while i < self.channel_roles.len()
            invariant
                i <= self.channel_roles@.len(),
                forall|j: int| 0 <= j < i ==> self.channel_roles@[j] != role,
            decreases self.channel_roles@.len() - i,
        {
            if self.channel_roles[i] == role {
                proof {
                    self.channel_roles@.index_of_first_ensures(role);
                    assert(self.channel_roles@.contains(role));
                }
                return Some(i);
            }
            i = i + 1;
        }
        proof {
            self.channel_roles@.index_of_first_ensures(role);
        }
        None
    }

    /// Gives `role` to channel `ch`. The first channel that had the role gets
    /// the old role of `ch`. Returns whether anything changed.
    pub fn assign_role(&mut self, ch: usize, role: QspiRole) -> (changed: bool)
        requires
            ch < old(self).channel_roles@.len(),
        ensures
            changed == (old(self).channel_roles@[ch as int] != role),
            final(self).channel_roles@[ch as int] == role,
            final(self).enabled == old(self).enabled,
            final(self).channel_roles@ == reassigned(old(self).channel_roles@, ch as int, role),
            final(self).channel_roles@.len() == old(self).channel_roles@.len(),
    {
        let current: QspiRole = self.channel_roles[ch];
        if current == role {
            return false;
        }
        if let Some(other) = self.channel_for(role) {
            self.channel_roles[other] = current;
        }
        self.channel_roles[ch] = role;
        true
    }
}

/// Where no two channels share a role, taking a role keeps it so, and the
/// channel that took the role plays it.
pub proof fn law_reassign_keeps_roles_distinct(roles: Seq<QspiRole>, ch: int, role: QspiRole)
    requires
        roles.no_duplicates(),
        0 <= ch < roles.len(),
    ensures
        reassigned(roles, ch, role).no_duplicates(),
        reassigned(roles, ch, role).len() == roles.len(),
        reassigned(roles, ch, role).index_of_first(role) == Some(ch),
{
    roles.index_of_first_ensures(role);
    let after = reassigned(roles, ch, role);
    after.index_of_first_ensures(role);
    assert(after[ch] == role);
}

/// Taking a role that some channel has only swaps two roles.
pub proof fn law_reassign_swaps(roles: Seq<QspiRole>, ch: int, role: QspiRole)
    requires
        0 <= ch < roles.len(),
        roles.contains(role),
    ensures
        reassigned(roles, ch, role)[ch] == role,
        reassigned(roles, ch, role).to_multiset() == roles.to_multiset(),
{
    broadcast use vstd::seq_lib::group_to_multiset_ensures;

    roles.index_of_first_ensures(role);
    if roles[ch] != role {
        let other = roles.index_of_first(role).unwrap();
        let half = roles.update(other, roles[ch]);
        vstd::seq_lib::to_multiset_update(roles, other, roles[ch]);
        vstd::seq_lib::to_multiset_update(half, ch, role);
        assert(half[ch] == roles[ch]);
        assert(roles.to_multiset().insert(roles[ch]).remove(role).insert(role).remove(roles[ch])
            =~= roles.to_multiset());
    }
}

/// A QSPI transaction: CS active window with at least one CLK edge.
#[derive(Clone, Copy)]
pub struct Transaction {
    pub start: u64,
    pub end: u64,
}

/// Samples at which an active-low line becomes active or inactive, up to the
/// end of the recording if it is still active there.
pub open spec fn active_bounds(first_value: u8, transitions: Seq<u64>, total: u64) -> Seq<u64> {
    let opened = if first_value == 0 {
        seq![0u64]
    } else {
        Seq::empty()
    } + transitions;
    if opened.len() % 2 == 1 {
        opened.push(total)
    } else {
        opened
    }
}

/// The windows between consecutive pairs of bounds.
pub open spec fn windows(bounds: Seq<u64>) -> Seq<Transaction> {
    Seq::new(
        bounds.len() / 2,
        |i: int| Transaction { start: bounds[2 * i], end: bounds[2 * i + 1] },
    )
}

/// The windows in which an active-low select line is active.
pub open spec fn windows_of(first_value: u8, transitions: Seq<u64>, total: u64) -> Seq<
    Transaction,
> {
    windows(active_bounds(first_value, transitions, total))
}

/// The windows in which the select line of a configuration is active.
pub open spec fn select_windows(store: EdgeStore, qspi: QspiConfig) -> Seq<Transaction> {
    match qspi.role_channel(QspiRole::Cs) {
        Some(ch) => windows_of(store.first_value(ch), store.transitions(ch), store.total_samples),
        None => Seq::empty(),
    }
}

/// Whether a window holds an edge of the clock.
pub open spec fn clocked(clk: Seq<u64>, tx: Transaction) -> bool {
    exists|i: int| 0 <= i < clk.len() && tx.start <= #[trigger] clk[i] < tx.end
}

/// Those of the windows that hold an edge of the clock.
pub open spec fn with_clock(windows: Seq<Transaction>, clk: Seq<u64>) -> Seq<Transaction> {
    windows.filter(|tx: Transaction| clocked(clk, tx))
}

/// The transactions that a configuration finds in a store. Where no channel
/// plays the clock, every window of the select line counts.
pub open spec fn found_transactions(store: EdgeStore, qspi: QspiConfig) -> Seq<Transaction> {
    match qspi.role_channel(QspiRole::Clk) {
        Some(clk) => with_clock(select_windows(store, qspi), store.transitions(clk)),
        None => select_windows(store, qspi),
    }
}

/// Whether a window holds an edge of the clock. Where the edges are in order,
/// they are found by bisection.
fn has_clock_edge(clk: &[u64], tx: Transaction, in_order: bool) -> (b: bool)
    requires
        in_order ==> signal::sorted(clk@),
    ensures
        b == clocked(clk@, tx),
{
    if in_order {
        let lo: usize = count_less(clk, tx.start);
        let hi: usize = count_less(clk, tx.end);
        proof {
            signal::lemma_count_below_sorted(clk@, tx.start as int);
            signal::lemma_count_below_sorted(clk@, tx.end as int);
            if lo < hi {
                assert(tx.start <= clk@[lo as int] < tx.end);
            }
        }
        return lo < hi;
    }
    let mut i: usize = 0;
    while i < clk.len()
        invariant
            i <= clk@.len(),
            forall|k: int| 0 <= k < i ==> !(tx.start <= #[trigger] clk@[k] < tx.end),
        decreases clk@.len() - i,
    {
        if tx.start <= clk[i] && clk[i] < tx.end {
            return true;
        }
        i = i + 1;
    }
    false
}

/// One window more is kept if it holds an edge of the clock.
proof fn lemma_with_clock_push(windows: Seq<Transaction>, clk: Seq<u64>, tx: Transaction)
    ensures
        with_clock(windows.push(tx), clk) == if clocked(clk, tx) {
            with_clock(windows, clk).push(tx)
        } else {
            with_clock(windows, clk)
        },
{
    reveal(Seq::filter);
    assert(windows.push(tx).drop_last() =~= windows);
}

/// Keeps those of the windows that hold an edge of the clock.
fn keep_clocked(windows: Vec<Transaction>, clk: &[u64]) -> (kept: Vec<Transaction>)
    ensures
        kept@ == with_clock(windows@, clk@),
{
    let in_order: bool = is_sorted(clk);
    let mut kept: Vec<Transaction> = Vec::new();
    let mut i: usize = 0;
    proof {
        reveal(Seq::filter);
        assert(windows@.take(0) =~= Seq::<Transaction>::empty());
        assert(kept@ =~= with_clock(windows@.take(0), clk@));
    }
    while i < windows.len()
        invariant
            i <= windows@.len(),
            in_order ==> signal::sorted(clk@),
            kept@ == with_clock(windows@.take(i as int), clk@),
        decreases windows@.len() - i,
    {
        let tx: Transaction = windows[i];
        proof {
            assert(windows@.take(i + 1) =~= windows@.take(i as int).push(tx));
            lemma_with_clock_push(windows@.take(i as int), clk@, tx);
        }
        if has_clock_edge(clk, tx, in_order) {
            kept.push(tx);
        }
        i = i + 1;
    }
    assert(windows@.take(i as int) =~= windows@);
    kept
}

/// Find all QSPI transactions across the entire recording: the CS active
/// windows that hold a CLK edge.
pub fn find_transactions(store: &EdgeStore, qspi: &QspiConfig) -> (transactions: Vec<Transaction>)
    requires
        store.wf(),
        qspi.role_within(QspiRole::Cs, store.num_channels as int),
        qspi.role_within(QspiRole::Clk, store.num_channels as int),
    ensures
        transactions@ == found_transactions(*store, *qspi),
{
    let windows: Vec<Transaction> = find_select_windows(store, qspi);
    match qspi.channel_for(QspiRole::Clk) {
        Some(clk_ch) => {
            assert(store.channel_wf(clk_ch as int));
            let clk = store.channel(clk_ch as u32);
            keep_clocked(windows, clk.transitions)
        },
        None => windows,
    }
}

/// Finds the windows in which the select line is active.
fn find_select_windows(store: &EdgeStore, qspi: &QspiConfig) -> (transactions: Vec<Transaction>)
    requires
        store.wf(),
        qspi.role_within(QspiRole::Cs, store.num_channels as int),
    ensures
        transactions@ == select_windows(*store, *qspi),
{
    let cs_ch: usize = match qspi.channel_for(QspiRole::Cs) {
        Some(ch) => ch,
        None => return Vec::new(),
    };
    assert(store.channel_wf(cs_ch as int));
    let cs = store.channel(cs_ch as u32);
    let ghost lead = if cs.first_value == 0 {
        seq![0u64]
    } else {
        Seq::empty()
    };
    let mut transactions: Vec<Transaction> = Vec::new();
    // CS is active low. Walk all CS transitions to find active windows.
    let mut val: u8 = cs.first_value;
    let mut active_start: Option<u64> = if val == 0 {
        Some(0)
    } else {
        None
    };
    let mut i: usize = 0;
    assert(lead + cs.transitions@.take(0) =~= lead);
    assert(transactions@ =~= windows(lead));
    while i < cs.transitions.len()
        invariant
            i <= cs.transitions@.len(),
            val <= 1,
            lead.len() <= 1,
            (val == 0) == ((lead.len() + i) % 2 == 1),
            active_start == (if val == 0 {
                Some((lead + cs.transitions@.take(i as int)).last())
            } else {
                None
            }),
            transactions@ == windows(lead + cs.transitions@.take(i as int)),
        decreases cs.transitions@.len() - i,
    {
        let t: u64 = cs.transitions[i];
        let ghost before = lead + cs.transitions@.take(i as int);
        let ghost after = lead + cs.transitions@.take(i + 1);
        assert(after =~= before.push(t));
        val = 1 - val;
        if val == 0 {
            // CS just went active
            active_start = Some(t);
            assert(windows(after) =~= windows(before));
        } else {
            // CS just went inactive
            if let Some(start) = active_start {
                transactions.push(Transaction { start, end: t });
            }
            active_start = None;
            assert(transactions@ =~= windows(after));
        }
        i = i + 1;
    }
    assert(cs.transitions@.take(i as int) =~= cs.transitions@);
    // If CS is still active at end of recording
    if let Some(start) = active_start {
        transactions.push(Transaction { start, end: store.total_samples });
    }
    assert(transactions@ =~= select_windows(*store, *qspi));
    transactions
}

/// Whether sample `s` lies within one of the transactions.
pub open spec fn covered(transactions: Seq<Transaction>, s: u64) -> bool {
    exists|i: int|
        0 <= i < transactions.len() && (#[trigger] transactions[i]).start <= s < transactions[i].end
}

/// A sample that the bounds split after `m` entries is covered iff `m` is odd.
proof fn lemma_windows_cover(bounds: Seq<u64>, s: u64, m: int)
    requires
        0 <= m <= bounds.len(),
        bounds.len() % 2 == 0,
        forall|k: int| 0 <= k < m ==> bounds[k] <= s,
        forall|k: int| m <= k < bounds.len() ==> bounds[k] > s,
    ensures
        covered(windows(bounds), s) <==> m % 2 == 1,
{
    let txs = windows(bounds);
    if m % 2 == 1 {
        let i = (m - 1) / 2;
        assert(txs[i].start == bounds[2 * i]);
        assert(txs[i].end == bounds[2 * i + 1]);
        assert(txs[i].start <= s < txs[i].end);
    } else {
        assert forall|i: int| 0 <= i < txs.len() implies !((#[trigger] txs[i]).start <= s
            < txs[i].end) by {
            assert(txs[i].start == bounds[2 * i]);
            assert(txs[i].end == bounds[2 * i + 1]);
        }
    }
}

/// Bound `k` is the start of the recording, a transition or its end.
pub proof fn lemma_active_bound(first_value: u8, transitions: Seq<u64>, total: u64, k: int)
    requires
        0 <= k < active_bounds(first_value, transitions, total).len(),
    ensures
        active_bounds(first_value, transitions, total)[k] == {
            let lead: int = if first_value == 0 {
                1
            } else {
                0
            };
            if k < lead {
                0
            } else if k < lead + transitions.len() {
                transitions[k - lead]
            } else {
                total
            }
        },
{
}

/// As many bounds lie at or before a sample as there are transitions there, and
/// the start of the recording if the line is active then.
proof fn lemma_bounds_split(first_value: u8, transitions: Seq<u64>, total: u64, s: u64, k: int)
    requires
        signal::sorted(transitions),
        s < total,
        0 <= k < active_bounds(first_value, transitions, total).len(),
    ensures
        active_bounds(first_value, transitions, total)[k] <= s <==> k < signal::count_below(
            transitions,
            s + 1,
        ) + if first_value == 0 {
            1int
        } else {
            0int
        },
        signal::count_below(transitions, s + 1) <= transitions.len(),
{
    signal::lemma_count_below_sorted(transitions, s + 1);
    lemma_active_bound(first_value, transitions, total, k);
}

/// Before the end of the recording, the select line is low exactly within its
/// windows.
pub proof fn law_select_windows_are_active(
    first_value: u8,
    transitions: Seq<u64>,
    total: u64,
    s: u64,
)
    requires
        first_value <= 1,
        signal::ascending(transitions),
        s < total,
    ensures
        signal::level(first_value, transitions, s as int) == 0 <==> covered(
            windows_of(first_value, transitions, total),
            s,
        ),
{
    signal::lemma_ascending_sorted(transitions);
    signal::lemma_count_below_sorted(transitions, s + 1);
    let c = signal::count_below(transitions, s + 1);
    let bounds = active_bounds(first_value, transitions, total);
    let lead: int = if first_value == 0 {
        1
    } else {
        0
    };
    let m = lead + c;
    assert forall|k: int| 0 <= k < bounds.len() implies (bounds[k] <= s <==> k < m) by {
        lemma_bounds_split(first_value, transitions, total, s, k);
    }
    lemma_bounds_even(first_value, transitions, total);
    lemma_windows_cover(bounds, s, m);
}

/// The bounds come in pairs, and there are no fewer than transitions and a lead.
proof fn lemma_bounds_even(first_value: u8, transitions: Seq<u64>, total: u64)
    ensures
        active_bounds(first_value, transitions, total).len() % 2 == 0,
        active_bounds(first_value, transitions, total).len() >= transitions.len() + if first_value
            == 0 {
            1int
        } else {
            0int
        },
{
}

/// Whether the windows follow each other without overlap, and each but the last
/// lasts at least one sample.
pub open spec fn follow_each_other(txs: Seq<Transaction>) -> bool {
    forall|i: int, j: int|
        0 <= i < j < txs.len() ==> (#[trigger] txs[i]).start < txs[i].end < (
        #[trigger] txs[j]).start
}

/// The windows of a line follow each other.
proof fn lemma_windows_in_order(first_value: u8, transitions: Seq<u64>, total: u64)
    requires
        first_value == 0 ==> transitions.len() > 0 ==> transitions[0] > 0,
        signal::ascending(transitions),
    ensures
        follow_each_other(windows_of(first_value, transitions, total)),
{
    let lead: Seq<u64> = if first_value == 0 {
        seq![0u64]
    } else {
        Seq::empty()
    };
    let opened = lead + transitions;
    let bounds = active_bounds(first_value, transitions, total);
    assert forall|a: int, b: int| 0 <= a < b < opened.len() implies bounds[a] < bounds[b] by {
        assert(bounds[b] == transitions[b - lead.len()]);
        if a >= lead.len() {
            assert(bounds[a] == transitions[a - lead.len()]);
        } else {
            assert(transitions[0] <= transitions[b - lead.len()]);
        }
    }
    let txs = windows_of(first_value, transitions, total);
    assert forall|i: int, j: int| 0 <= i < j < txs.len() implies (#[trigger] txs[i]).start
        < txs[i].end < (#[trigger] txs[j]).start by {
        assert(txs[i].start == bounds[2 * i]);
        assert(txs[i].end == bounds[2 * i + 1]);
        assert(txs[j].start == bounds[2 * j]);
    }
}

/// The windows that are kept are those that hold an edge of the clock, and no others.
proof fn lemma_with_clock(windows: Seq<Transaction>, clk: Seq<u64>, tx: Transaction)
    ensures
        with_clock(windows, clk).contains(tx) <==> windows.contains(tx) && clocked(clk, tx),
    decreases windows.len(),
{
    reveal(Seq::filter);
    let kept = with_clock(windows, clk);
    if windows.len() > 0 {
        let shorter = windows.drop_last();
        let before = with_clock(shorter, clk);
        lemma_with_clock(shorter, clk, tx);
        assert(windows =~= shorter.push(windows.last()));
        lemma_with_clock_push(shorter, clk, windows.last());
        if shorter.contains(tx) {
            assert(windows[shorter.index_of(tx)] == tx);
        }
        if windows.contains(tx) && tx != windows.last() {
            assert(shorter[windows.index_of(tx)] == tx);
        }
        if tx == windows.last() {
            assert(windows[windows.len() - 1] == tx);
        }
        if clocked(clk, windows.last()) {
            assert(kept == before.push(windows.last()));
            assert(kept[before.len() as int] == windows.last());
            if before.contains(tx) {
                assert(kept[before.index_of(tx)] == tx);
            }
            if kept.contains(tx) && tx != windows.last() {
                assert(before[kept.index_of(tx)] == tx);
            }
        }
    }
}

/// Windows that follow each other still do so when some are left out.
proof fn lemma_with_clock_in_order(windows: Seq<Transaction>, clk: Seq<u64>)
    requires
        follow_each_other(windows),
    ensures
        follow_each_other(with_clock(windows, clk)),
    decreases windows.len(),
{
    reveal(Seq::filter);
    if windows.len() > 0 {
        let shorter = windows.drop_last();
        let last = windows.last();
        assert forall|i: int, j: int| 0 <= i < j < shorter.len() implies (
        #[trigger] shorter[i]).start < shorter[i].end < (#[trigger] shorter[j]).start by {
            assert(shorter[i] == windows[i] && shorter[j] == windows[j]);
        }
        lemma_with_clock_in_order(shorter, clk);
        assert(windows =~= shorter.push(last));
        lemma_with_clock_push(shorter, clk, last);
        let before = with_clock(shorter, clk);
        let kept = with_clock(windows, clk);
        assert forall|i: int, j: int| 0 <= i < j < kept.len() implies (#[trigger] kept[i]).start
            < kept[i].end < (#[trigger] kept[j]).start by {
            assert(kept[i] == before[i]);
            if j < before.len() {
                assert(kept[j] == before[j]);
            } else {
                lemma_with_clock(shorter, clk, before[i]);
                assert(before.contains(before[i]));
                let k = shorter.index_of(before[i]);
                assert(windows[k] == before[i]);
                assert(windows[windows.len() - 1] == kept[j]);
            }
        }
    }
}

/// A transaction is a window in which the select line is active, with at least
/// one edge of the clock, and every such window is a transaction.
pub proof fn law_transactions_are_clocked_windows(
    store: EdgeStore,
    qspi: QspiConfig,
    tx: Transaction,
)
    requires
        qspi.role_channel(QspiRole::Clk) is Some,
    ensures
        found_transactions(store, qspi).contains(tx) <==> select_windows(store, qspi).contains(tx)
            && clocked(store.transitions(qspi.played_by(QspiRole::Clk)), tx),
{
    lemma_with_clock(
        select_windows(store, qspi),
        store.transitions(qspi.played_by(QspiRole::Clk)),
        tx,
    );
}

/// Transactions follow each other without overlap, and each but the last lasts
/// at least one sample. Where a channel plays the clock, the last does too.
pub proof fn law_transactions_in_order(store: EdgeStore, qspi: QspiConfig)
    requires
        store.wf(),
        store.sized(),
        qspi.role_within(QspiRole::Cs, store.num_channels as int),
    ensures
        follow_each_other(found_transactions(store, qspi)),
        qspi.role_channel(QspiRole::Clk) is Some ==> forall|i: int|
            0 <= i < found_transactions(store, qspi).len() ==> (#[trigger] found_transactions(
                store,
                qspi,
            )[i]).start < found_transactions(store, qspi)[i].end,
{
    let windows = select_windows(store, qspi);
    if qspi.role_channel(QspiRole::Cs) is Some {
        let ch = qspi.played_by(QspiRole::Cs);
        qspi.channel_roles@.index_of_first_ensures(QspiRole::Cs);
        edges::law_transitions_ascend(store, ch);
        edges::lemma_transitions_positive(store, ch);
        lemma_windows_in_order(
            store.first_value(ch),
            store.transitions(ch),
            store.total_samples,
        );
    }
    if qspi.role_channel(QspiRole::Clk) is Some {
        let clk = store.transitions(qspi.played_by(QspiRole::Clk));
        lemma_with_clock_in_order(windows, clk);
        let found = found_transactions(store, qspi);
        assert forall|i: int| 0 <= i < found.len() implies (#[trigger] found[i]).start
            < found[i].end by {
            assert(found.contains(found[i]));
            lemma_with_clock(windows, clk, found[i]);
        }
    }
}

/// Rising edges among the transitions `lo` to `hi` of a clock: those after
/// which the level is 1.
pub open spec fn rising(first_value: u8, transitions: Seq<u64>, lo: int, hi: int) -> Seq<u64>
    decreases hi,
{
    if hi <= lo || hi <= 0 {
        Seq::empty()
    } else if (first_value + hi) % 2 == 1 {
        rising(first_value, transitions, lo, hi - 1).push(transitions[hi - 1])
    } else {
        rising(first_value, transitions, lo, hi - 1)
    }
}

/// The rising edges among the transitions `lo` to `hi` of a clock.
pub fn rising_edges(clk: &ChannelView<'_>, lo: usize, hi: usize) -> (edges: Vec<u64>)
    requires
        lo <= hi <= clk.transitions@.len(),
    ensures
        edges@ == rising(clk.first_value, clk.transitions@, lo as int, hi as int),
{
    let mut edges: Vec<u64> = Vec::new();
    let mut clk_val: u8 = signal::flipped(clk.first_value, lo);
    let mut i: usize = lo;
    while i < hi
        invariant
            lo <= i <= hi <= clk.transitions@.len(),
            clk_val == (clk.first_value + i) % 2,
            edges@ == rising(clk.first_value, clk.transitions@, lo as int, i as int),
        decreases hi - i,
    {
        clk_val = 1 - clk_val;
        if clk_val == 1 {
            edges.push(clk.transitions[i]);
        }
        i = i + 1;
    }
    edges
}

/// A recorded line: its first value and its transitions.
pub struct Line {
    pub first_value: u8,
    pub transitions: Seq<u64>,
}

impl Line {
    /// Level of the line at sample `s`.
    pub open spec fn at(self, s: u64) -> int {
        signal::level(self.first_value, self.transitions, s as int)
    }
}

/// The line that a channel of a store records.
pub open spec fn line_of(store: EdgeStore, ch: int) -> Line {
    Line { first_value: store.first_value(ch), transitions: store.transitions(ch) }
}

/// The four data lines of the bus.
pub struct Bus {
    pub d0: Line,
    pub d1: Line,
    pub d2: Line,
    pub d3: Line,
}

impl Bus {
    /// The four data bits at sample `s`, D3 highest.
    pub open spec fn nibble(self, s: u64) -> int {
        8 * self.d3.at(s) + 4 * self.d2.at(s) + 2 * self.d1.at(s) + self.d0.at(s)
    }

    /// The byte sampled at two clock edges, high nibble first.
    pub open spec fn byte(self, a: u64, b: u64) -> u8 {
        (16 * self.nibble(a) + self.nibble(b)) as u8
    }
}

/// Views of the four data channels.
pub struct DataLines<'a> {
    pub d0: ChannelView<'a>,
    pub d1: ChannelView<'a>,
    pub d2: ChannelView<'a>,
    pub d3: ChannelView<'a>,
}

impl<'a> DataLines<'a> {
    /// The lines that the views show.
    pub open spec fn bus(&self) -> Bus {
        Bus {
            d0: Line { first_value: self.d0.first_value, transitions: self.d0.transitions@ },
            d1: Line { first_value: self.d1.first_value, transitions: self.d1.transitions@ },
            d2: Line { first_value: self.d2.first_value, transitions: self.d2.transitions@ },
            d3: Line { first_value: self.d3.first_value, transitions: self.d3.transitions@ },
        }
    }

    /// Whether every view has sorted transitions.
    pub open spec fn sorted(&self) -> bool {
        &&& signal::sorted(self.d0.transitions@)
        &&& signal::sorted(self.d1.transitions@)
        &&& signal::sorted(self.d2.transitions@)
        &&& signal::sorted(self.d3.transitions@)
    }

    /// The four data bits at sample `s`, D3 highest.
    pub fn nibble(&self, s: u64) -> (v: u8)
        requires
            self.sorted(),
        ensures
            v == self.bus().nibble(s),
            v < 16,
    {
        self.d3.value_at(s) * 8 + self.d2.value_at(s) * 4 + self.d1.value_at(s) * 2
            + self.d0.value_at(s)
    }

    /// The byte sampled at two clock edges, high nibble first.
    pub fn byte(&self, a: u64, b: u64) -> (v: u8)
        requires
            self.sorted(),
        ensures
            v == self.bus().byte(a, b),
    {
        self.nibble(a) * 16 + self.nibble(b)
    }
}

/// A decoded byte and the two clock edges at which it was sampled.
pub struct QspiWord {
    pub byte: u8,
    pub sample_a: u64,
    pub sample_b: u64,
}

/// Words read from clock edge `i` on. Edges with the select line high are
/// skipped one by one, and two consecutive edges with it low make a word,
/// which counts if it ends at or after `first_sample`.
pub open spec fn words_from(
    cs: Line,
    bus: Bus,
    edges: Seq<u64>,
    i: int,
    first_sample: u64,
) -> Seq<QspiWord>
    decreases edges.len() - i,
{
    if i < 0 || i >= edges.len() {
        Seq::empty()
    } else if cs.at(edges[i]) != 0 {
        words_from(cs, bus, edges, i + 1, first_sample)
    } else if i + 1 >= edges.len() {
        Seq::empty()
    } else if cs.at(edges[i + 1]) != 0 {
        words_from(cs, bus, edges, i + 1, first_sample)
    } else {
        let word = QspiWord {
            byte: bus.byte(edges[i], edges[i + 1]),
            sample_a: edges[i],
            sample_b: edges[i + 1],
        };
        let rest = words_from(cs, bus, edges, i + 2, first_sample);
        if edges[i + 1] >= first_sample {
            seq![word] + rest
        } else {
            rest
        }
    }
}

/// The channels that play the six roles, where all are taken.
pub struct QspiChannels {
    pub clk: u32,
    pub cs: u32,
    pub d0: u32,
    pub d1: u32,
    pub d2: u32,
    pub d3: u32,
}

impl QspiConfig {
    /// Whether every role is played.
    pub open spec fn complete(&self) -> bool {
        &&& self.role_channel(QspiRole::Clk) is Some
        &&& self.role_channel(QspiRole::Cs) is Some
        &&& self.role_channel(QspiRole::D0) is Some
        &&& self.role_channel(QspiRole::D1) is Some
        &&& self.role_channel(QspiRole::D2) is Some
        &&& self.role_channel(QspiRole::D3) is Some
    }

    /// Whether every role is played by one of the first `n` channels, or by none.
    pub open spec fn roles_within(&self, n: int) -> bool {
        &&& self.role_within(QspiRole::Clk, n)
        &&& self.role_within(QspiRole::Cs, n)
        &&& self.role_within(QspiRole::D0, n)
        &&& self.role_within(QspiRole::D1, n)
        &&& self.role_within(QspiRole::D2, n)
        &&& self.role_within(QspiRole::D3, n)
    }

    /// The channel that plays `role`, where one does.
    pub open spec fn played_by(&self, role: QspiRole) -> int {
        self.role_channel(role).unwrap()
    }

    /// The four data lines in a store, where all are played.
    pub open spec fn bus(&self, store: EdgeStore) -> Bus {
        Bus {
            d0: line_of(store, self.played_by(QspiRole::D0)),
            d1: line_of(store, self.played_by(QspiRole::D1)),
            d2: line_of(store, self.played_by(QspiRole::D2)),
            d3: line_of(store, self.played_by(QspiRole::D3)),
        }
    }

    /// The channels of all six roles, if every role is played.
    pub fn channels(&self) -> (channels: Option<QspiChannels>)
        requires
            self.complete() ==> self.roles_within(0x1_0000_0000),
        ensures
            channels is Some <==> self.complete(),
            match channels {
                Some(c) => {
                    &&& c.clk == self.played_by(QspiRole::Clk)
                    &&& c.cs == self.played_by(QspiRole::Cs)
                    &&& c.d0 == self.played_by(QspiRole::D0)
                    &&& c.d1 == self.played_by(QspiRole::D1)
                    &&& c.d2 == self.played_by(QspiRole::D2)
                    &&& c.d3 == self.played_by(QspiRole::D3)
                },
                None => true,
            },
    {
        match (
            self.channel_for(QspiRole::Clk),
            self.channel_for(QspiRole::Cs),
            self.channel_for(QspiRole::D0),
            self.channel_for(QspiRole::D1),
            self.channel_for(QspiRole::D2),
            self.channel_for(QspiRole::D3),
        ) {
            (Some(clk), Some(cs), Some(d0), Some(d1), Some(d2), Some(d3)) => Some(
                QspiChannels {
                    clk: clk as u32,
                    cs: cs as u32,
                    d0: d0 as u32,
                    d1: d1 as u32,
                    d2: d2 as u32,
                    d3: d3 as u32,
                },
            ),
            _ => None,
        }
    }
}

/// First sample that the decoder looks at to show [first_sample, last_sample):
/// one viewport further to the left.
pub open spec fn search_start(first_sample: u64, last_sample: u64) -> int {
    if 2 * first_sample >= last_sample {
        2 * first_sample - last_sample
    } else {
        0
    }
}

/// The words that a viewport [first_sample, last_sample) shows.
pub open spec fn decoded(
    store: EdgeStore,
    qspi: QspiConfig,
    first_sample: u64,
    last_sample: u64,
) -> Seq<QspiWord> {
    if qspi.complete() {
        let clk = line_of(store, qspi.played_by(QspiRole::Clk));
        words_from(
            line_of(store, qspi.played_by(QspiRole::Cs)),
            qspi.bus(store),
            rising(
                clk.first_value,
                clk.transitions,
                signal::count_below(
                    clk.transitions,
                    search_start(first_sample, last_sample),
                ) as int,
                signal::count_below(clk.transitions, last_sample as int) as int,
            ),
            0,
            first_sample,
        )
    } else {
        Seq::empty()
    }
}

/// Decodes the words that a viewport shows.
pub fn decode_qspi(
    store: &EdgeStore,
    qspi: &QspiConfig,
    first_sample: u64,
    last_sample: u64,
) -> (words: Vec<QspiWord>)
    requires
        store.wf(),
        qspi.complete() ==> qspi.roles_within(store.num_channels as int) && roles_sorted(
            *store,
            *qspi,
        ) && first_sample <= last_sample,
    ensures
        words@ == decoded(*store, *qspi, first_sample, last_sample),
{
    let channels: QspiChannels = match qspi.channels() {
        Some(c) => c,
        None => return Vec::new(),
    };
    proof {
        lemma_role_in_store(*store, *qspi, QspiRole::Clk);
        lemma_role_in_store(*store, *qspi, QspiRole::Cs);
        lemma_role_in_store(*store, *qspi, QspiRole::D0);
        lemma_role_in_store(*store, *qspi, QspiRole::D1);
        lemma_role_in_store(*store, *qspi, QspiRole::D2);
        lemma_role_in_store(*store, *qspi, QspiRole::D3);
    }
    let clk = store.channel(channels.clk);
    let cs = store.channel(channels.cs);
    let data = DataLines {
        d0: store.channel(channels.d0),
        d1: store.channel(channels.d1),
        d2: store.channel(channels.d2),
        d3: store.channel(channels.d3),
    };
    let search: u64 = first_sample.saturating_sub(last_sample - first_sample);
    let lo: usize = count_less(clk.transitions, search);
    let hi: usize = count_less(clk.transitions, last_sample);
    proof {
        signal::lemma_count_below_monotone(clk.transitions@, search as int, last_sample as int);
    }
    let edges: Vec<u64> = rising_edges(&clk, lo, hi);
    let ghost select = line_of(*store, qspi.played_by(QspiRole::Cs));
    let ghost bus = qspi.bus(*store);
    let mut words: Vec<QspiWord> = Vec::new();
    let mut i: usize = 0;
    while i < edges.len()
        invariant_except_break
            words@ + words_from(select, bus, edges@, i as int, first_sample) == words_from(
                select,
                bus,
                edges@,
                0,
                first_sample,
            ),
        invariant
            select.first_value == cs.first_value,
            select.transitions == cs.transitions@,
            signal::sorted(cs.transitions@),
            data.sorted(),
            data.bus() == bus,
        ensures
            words@ == words_from(select, bus, edges@, 0, first_sample),
        decreases edges@.len() - i,
    {
        if cs.value_at(edges[i]) != 0 {
            i = i + 1;
            continue;
        }
        if i + 1 >= edges.len() {
            assert(words@ + Seq::<QspiWord>::empty() =~= words@);
            break;
        }
        let edge_a: u64 = edges[i];
        let edge_b: u64 = edges[i + 1];
        if cs.value_at(edge_b) != 0 {
            i = i + 1;
            continue;
        }
        let ghost before = words@;
        let ghost rest = words_from(select, bus, edges@, i + 2, first_sample);
        if edge_b >= first_sample {
            let byte: u8 = data.byte(edge_a, edge_b);
            let word = QspiWord { byte, sample_a: edge_a, sample_b: edge_b };
            words.push(word);
            assert(words@ + rest =~= before + (seq![word] + rest));
        }
        i = i + 2;
    }
    assert(words@ == decoded(*store, *qspi, first_sample, last_sample));
    words
}

/// Every role that is played is played by one of the channels that have a role.
pub proof fn lemma_roles_within(qspi: QspiConfig)
    ensures
        qspi.roles_within(qspi.channel_roles@.len() as int),
{
    qspi.channel_roles@.index_of_first_ensures(QspiRole::Clk);
    qspi.channel_roles@.index_of_first_ensures(QspiRole::Cs);
    qspi.channel_roles@.index_of_first_ensures(QspiRole::D0);
    qspi.channel_roles@.index_of_first_ensures(QspiRole::D1);
    qspi.channel_roles@.index_of_first_ensures(QspiRole::D2);
    qspi.channel_roles@.index_of_first_ensures(QspiRole::D3);
}

/// Whether the channel that plays `role`, if any, has its transitions in order.
pub open spec fn role_sorted(store: EdgeStore, qspi: QspiConfig, role: QspiRole) -> bool {
    match qspi.role_channel(role) {
        Some(ch) => signal::sorted(store.transitions(ch)),
        None => true,
    }
}

/// Whether all channels that play a role have their transitions in order.
pub open spec fn roles_sorted(store: EdgeStore, qspi: QspiConfig) -> bool {
    &&& role_sorted(store, qspi, QspiRole::Clk)
    &&& role_sorted(store, qspi, QspiRole::Cs)
    &&& role_sorted(store, qspi, QspiRole::D0)
    &&& role_sorted(store, qspi, QspiRole::D1)
    &&& role_sorted(store, qspi, QspiRole::D2)
    &&& role_sorted(store, qspi, QspiRole::D3)
}

/// As long as no block is longer than a full one, all channels that play a role
/// have their transitions in order.
pub proof fn law_full_blocks_stay_in_order(store: EdgeStore, qspi: QspiConfig)
    requires
        store.wf(),
        store.sized(),
        qspi.roles_within(store.num_channels as int),
    ensures
        roles_sorted(store, qspi),
{
    assert forall|role: QspiRole| qspi.role_within(role, store.num_channels as int) implies
        #[trigger] role_sorted(store, qspi, role) by {
        qspi.channel_roles@.index_of_first_ensures(role);
        if qspi.role_channel(role) is Some {
            edges::law_transitions_ascend(store, qspi.played_by(role));
        }
    }
}

/// Whether the transitions of a channel are in order.
fn channel_in_order(store: &EdgeStore, ch: usize) -> (b: bool)
    requires
        store.wf(),
        ch < store.num_channels,
    ensures
        b == signal::sorted(store.transitions(ch as int)),
{
    assert(store.channel_wf(ch as int));
    let view = store.channel(ch as u32);
    is_sorted(view.transitions)
}

/// Whether the channel that plays `role`, if any, has its transitions in order.
fn role_in_order(store: &EdgeStore, qspi: &QspiConfig, role: QspiRole) -> (b: bool)
    requires
        store.wf(),
        qspi.role_within(role, store.num_channels as int),
    ensures
        b == role_sorted(*store, *qspi, role),
{
    match qspi.channel_for(role) {
        Some(ch) => channel_in_order(store, ch),
        None => true,
    }
}

/// Whether all channels that play a role have their transitions in order. It
/// takes a block that is longer than a full one to bring them out of order.
pub fn roles_in_order(store: &EdgeStore, qspi: &QspiConfig) -> (b: bool)
    requires
        store.wf(),
        qspi.roles_within(store.num_channels as int),
    ensures
        b == roles_sorted(*store, *qspi),
{
    role_in_order(store, qspi, QspiRole::Clk) && role_in_order(store, qspi, QspiRole::Cs)
        && role_in_order(store, qspi, QspiRole::D0) && role_in_order(store, qspi, QspiRole::D1)
        && role_in_order(store, qspi, QspiRole::D2) && role_in_order(store, qspi, QspiRole::D3)
}

/// A role that is played within a store is played by a channel of the store.
pub proof fn lemma_role_in_store(store: EdgeStore, qspi: QspiConfig, role: QspiRole)
    requires
        store.wf(),
        qspi.role_channel(role) is Some,
        qspi.role_within(role, store.num_channels as int),
    ensures
        0 <= qspi.played_by(role) < store.num_channels,
{
    qspi.channel_roles@.index_of_first_ensures(role);
}

/// Whether a word was sampled at the clock edges `j` and `j + 1` with the
/// select line low.
pub open spec fn word_at(cs: Line, bus: Bus, edges: Seq<u64>, j: int, word: QspiWord) -> bool {
    &&& 0 <= j < edges.len() - 1
    &&& word.sample_a == edges[j]
    &&& word.sample_b == edges[j + 1]
    &&& cs.at(edges[j]) == 0
    &&& cs.at(edges[j + 1]) == 0
    &&& word.byte == bus.byte(edges[j], edges[j + 1])
}

/// Every word was sampled at two consecutive clock edges, both with the select
/// line low, and ends at or after `first_sample`.
pub proof fn law_words_are_selected(
    cs: Line,
    bus: Bus,
    edges: Seq<u64>,
    i: int,
    first_sample: u64,
)
    requires
        0 <= i,
    ensures
        forall|k: int|
            #![trigger words_from(cs, bus, edges, i, first_sample)[k]]
            0 <= k < words_from(cs, bus, edges, i, first_sample).len() ==> {
                &&& words_from(cs, bus, edges, i, first_sample)[k].sample_b >= first_sample
                &&& exists|j: int|
                    i <= j && #[trigger] word_at(
                        cs,
                        bus,
                        edges,
                        j,
                        words_from(cs, bus, edges, i, first_sample)[k],
                    )
            },
    decreases edges.len() - i,
{
    let words = words_from(cs, bus, edges, i, first_sample);
    if i < edges.len() {
        let selected = cs.at(edges[i]) == 0 && i + 1 < edges.len() && cs.at(edges[i + 1]) == 0;
        let step: int = if selected {
            2
        } else {
            1
        };
        law_words_are_selected(cs, bus, edges, i + step, first_sample);
        let rest = words_from(cs, bus, edges, i + step, first_sample);
        assert forall|k: int| #![trigger words[k]] 0 <= k < words.len() implies {
            &&& words[k].sample_b >= first_sample
            &&& exists|j: int| i <= j && #[trigger] word_at(cs, bus, edges, j, words[k])
        } by {
            if selected && edges[i + 1] >= first_sample {
                if k == 0 {
                    assert(word_at(cs, bus, edges, i, words[k]));
                } else {
                    assert(words[k] == rest[k - 1]);
                    let j = choose|j: int| i + step <= j && #[trigger] word_at(
                        cs,
                        bus,
                        edges,
                        j,
                        rest[k - 1],
                    );
                    assert(word_at(cs, bus, edges, j, words[k]));
                }
            } else if selected || cs.at(edges[i]) != 0 || i + 1 < edges.len() {
                assert(words[k] == rest[k]);
                let j = choose|j: int| i + step <= j && #[trigger] word_at(
                    cs,
                    bus,
                    edges,
                    j,
                    rest[k],
                );
                assert(word_at(cs, bus, edges, j, words[k]));
            }
        }
    }
}

/// Where the clock edges strictly increase, the words follow each other
/// without sharing an edge.
pub proof fn law_words_in_order(cs: Line, bus: Bus, edges: Seq<u64>, i: int, first_sample: u64)
    requires
        0 <= i,
        signal::ascending(edges),
    ensures
        forall|k: int, l: int|
            #![trigger words_from(cs, bus, edges, i, first_sample)[k], words_from(
                cs,
                bus,
                edges,
                i,
                first_sample,
            )[l]]
            0 <= k < l < words_from(cs, bus, edges, i, first_sample).len() ==> words_from(
                cs,
                bus,
                edges,
                i,
                first_sample,
            )[k].sample_b < words_from(cs, bus, edges, i, first_sample)[l].sample_a,
    decreases edges.len() - i,
{
    let words = words_from(cs, bus, edges, i, first_sample);
    if i < edges.len() {
        let selected = cs.at(edges[i]) == 0 && i + 1 < edges.len() && cs.at(edges[i + 1]) == 0;
        let step: int = if selected {
            2
        } else {
            1
        };
        law_words_in_order(cs, bus, edges, i + step, first_sample);
        law_words_are_selected(cs, bus, edges, i + step, first_sample);
        let rest = words_from(cs, bus, edges, i + step, first_sample);
        assert forall|k: int, l: int|
            #![trigger words[k], words[l]]
            0 <= k < l < words.len() implies words[k].sample_b < words[l].sample_a by {
            if selected && edges[i + 1] >= first_sample {
                assert(words[l] == rest[l - 1]);
                if k == 0 {
                    let j = choose|j: int| i + step <= j && #[trigger] word_at(
                        cs,
                        bus,
                        edges,
                        j,
                        rest[l - 1],
                    );
                    assert(edges[i + 1] < edges[j]);
                } else {
                    assert(words[k] == rest[k - 1]);
                }
            } else if selected || cs.at(edges[i]) != 0 || i + 1 < edges.len() {
                assert(words[k] == rest[k]);
                assert(words[l] == rest[l]);
            }
        }
    }
}

/// The rising edges of a clock with strictly increasing transitions strictly
/// increase, and the clock is high at each of them.
pub proof fn law_rising_edges_are_high(
    first_value: u8,
    transitions: Seq<u64>,
    lo: int,
    hi: int,
)
    requires
        0 <= lo <= hi <= transitions.len(),
        signal::ascending(transitions),
    ensures
        signal::ascending(rising(first_value, transitions, lo, hi)),
        forall|k: int|
            #![trigger rising(first_value, transitions, lo, hi)[k]]
            0 <= k < rising(first_value, transitions, lo, hi).len() ==> {
                &&& signal::level(
                    first_value,
                    transitions,
                    rising(first_value, transitions, lo, hi)[k] as int,
                ) == 1
                &&& exists|j: int|
                    lo <= j < hi && rising(first_value, transitions, lo, hi)[k]
                        == #[trigger] transitions[j]
            },
    decreases hi,
{
    if lo < hi {
        law_rising_edges_are_high(first_value, transitions, lo, hi - 1);
        let shorter = rising(first_value, transitions, lo, hi - 1);
        let all = rising(first_value, transitions, lo, hi);
        let t = transitions[hi - 1];
        signal::lemma_count_below_split(transitions, t + 1, hi);
        assert forall|k: int| #![trigger all[k]] 0 <= k < all.len() implies {
            &&& signal::level(first_value, transitions, all[k] as int) == 1
            &&& exists|j: int| lo <= j < hi && all[k] == #[trigger] transitions[j]
        } by {
            if k < shorter.len() {
                assert(all[k] == shorter[k]);
                let j = choose|j: int| lo <= j < hi - 1 && shorter[k] == #[trigger] transitions[j];
                assert(all[k] == transitions[j]);
            } else {
                assert(all[k] == transitions[hi - 1]);
            }
        }
        assert forall|k: int, l: int| 0 <= k < l < all.len() implies all[k] < all[l] by {
            assert(all[k] == shorter[k]);
            if l < shorter.len() {
                assert(all[l] == shorter[l]);
            } else {
                let j = choose|j: int| lo <= j < hi - 1 && shorter[k] == #[trigger] transitions[j];
                assert(transitions[j] < transitions[hi - 1]);
            }
        }
    }
}

/// Roles are dealt out in turn, and every six channels start anew.
pub proof fn law_roles_are_dealt_in_turn(i: int)
    requires
        i >= 0,
    ensures
        initial_role(6 * i) == QspiRole::D0,
        initial_role(6 * i + 1) == QspiRole::D1,
        initial_role(6 * i + 2) == QspiRole::D2,
        initial_role(6 * i + 3) == QspiRole::D3,
        initial_role(6 * i + 4) == QspiRole::Clk,
        initial_role(6 * i + 5) == QspiRole::Cs,
{
}

/// A channel that takes a role gives its own to the first channel that had it,
/// and no other channel notices.
pub proof fn law_reassign_leaves_others_alone(
    roles: Seq<QspiRole>,
    ch: int,
    role: QspiRole,
    first: int,
    k: int,
)
    requires
        0 <= ch < roles.len(),
        0 <= k < roles.len(),
    ensures
        reassigned(roles, ch, role).len() == roles.len(),
        reassigned(roles, ch, role)[ch] == role,
        roles[ch] == role ==> reassigned(roles, ch, role) == roles,
        0 <= first < roles.len() && roles[first] == role && (forall|j: int|
            0 <= j < first ==> roles[j] != role) ==> {
            &&& reassigned(roles, ch, role)[first] == roles[ch] || first == ch
            &&& k != ch && k != first ==> reassigned(roles, ch, role)[k] == roles[k]
        },
        !roles.contains(role) && k != ch ==> reassigned(roles, ch, role)[k] == roles[k],
{
    roles.index_of_first_ensures(role);
    if 0 <= first < roles.len() && roles[first] == role {
        assert(roles.contains(role));
        if roles[ch] == role && first != ch {
            assert(reassigned(roles, ch, role)[first] == roles[ch]);
        }
    }
}

} // verus!
