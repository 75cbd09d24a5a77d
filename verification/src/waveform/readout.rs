//! What is read off the recorded lines, told by their levels sample by sample.

use vstd::prelude::*;

use crate::waveform::edges;
use crate::waveform::edges::EdgeStore;
use crate::waveform::qspi;
use crate::waveform::qspi::{DataLines, QspiConfig, QspiRole, QspiWord, Transaction};
use crate::waveform::qspi_stats;
use crate::waveform::signal;

verus! {

/// Level of channel `ch` at sample `s`.
pub open spec fn level_of(store: EdgeStore, ch: int, s: int) -> int {
    signal::level(store.first_value(ch), store.transitions(ch), s)
}

/// Whether a signal goes from low to high at sample `s`.
pub open spec fn rises(first_value: u8, transitions: Seq<u64>, s: int) -> bool {
    &&& s > 0
    &&& signal::level(first_value, transitions, s - 1) == 0
    &&& signal::level(first_value, transitions, s) == 1
}

/// Whether `edges` lists the samples of [from, to) at which a signal goes from
/// low to high, in ascending order.
pub open spec fn lists_rises(
    edges: Seq<u64>,
    first_value: u8,
    transitions: Seq<u64>,
    from: int,
    to: int,
) -> bool {
    &&& signal::ascending(edges)
    &&& forall|s: u64| #[trigger]
        edges.contains(s) <==> from <= s < to && rises(first_value, transitions, s as int)
}

/// Whether the transitions ascend and leave sample 0 alone, as those of a
/// recorded channel do.
pub open spec fn regular(transitions: Seq<u64>) -> bool {
    &&& signal::ascending(transitions)
    &&& forall|i: int| 0 <= i < transitions.len() ==> #[trigger] transitions[i] > 0
}

/// A recorded channel has regular transitions and starts low or high.
pub proof fn lemma_channel_regular(store: EdgeStore, ch: int)
    requires
        store.wf(),
        store.sized(),
        0 <= ch < store.num_channels,
    ensures
        regular(store.transitions(ch)),
        store.first_value(ch) <= 1,
{
    assert(store.channel_wf(ch));
    edges::law_transitions_ascend(store, ch);
    edges::lemma_transitions_positive(store, ch);
}

/// Two ascending sequences of the same entries are the same.
proof fn lemma_ascending_unique(a: Seq<u64>, b: Seq<u64>)
    requires
        signal::ascending(a),
        signal::ascending(b),
        forall|s: u64| #[trigger] a.contains(s) <==> b.contains(s),
    ensures
        a == b,
    decreases a.len(),
{
    if a.len() == 0 {
        if b.len() > 0 {
            assert(b.contains(b[0]));
            assert(a.contains(b[0]));
        }
        assert(a =~= b);
    } else {
        assert(a.contains(a[0]));
        assert(b.contains(a[0]));
        let (x, y) = (a.last(), b.last());
        assert(a[a.len() - 1] == x && b[b.len() - 1] == y);
        assert(a.contains(x) && b.contains(y));
        assert(b.contains(x) && a.contains(y));
        let i = b.index_of(x);
        let j = a.index_of(y);
        assert(b[i] == x && a[j] == y);
        assert(x == y);
        let c = a.drop_last();
        let d = b.drop_last();
        assert forall|s: u64| #[trigger] c.contains(s) <==> d.contains(s) by {
            if c.contains(s) {
                let k = c.index_of(s);
                assert(a[k] == s && s < x);
                assert(a.contains(s));
                let l = b.index_of(s);
                assert(d[l] == s);
            }
            if d.contains(s) {
                let k = d.index_of(s);
                assert(b[k] == s && s < y);
                assert(b.contains(s));
                assert(a.contains(s));
                let l = a.index_of(s);
                assert(c[l] == s);
            }
        }
        lemma_ascending_unique(c, d);
        assert(a =~= c.push(x));
        assert(b =~= d.push(y));
    }
}

/// How often a signal has flipped before a transition of its own.
proof fn lemma_count_at_transition(transitions: Seq<u64>, j: int)
    requires
        signal::ascending(transitions),
        0 <= j < transitions.len(),
    ensures
        signal::count_below(transitions, transitions[j] as int) == j,
        signal::count_below(transitions, transitions[j] + 1) == j + 1,
{
    signal::lemma_count_below_split(transitions, transitions[j] as int, j);
    signal::lemma_count_below_split(transitions, transitions[j] + 1, j + 1);
}

/// The transitions of a signal are exactly the samples at which its level
/// differs from the one before.
pub proof fn law_transitions_are_changes(first_value: u8, transitions: Seq<u64>, s: u64)
    requires
        regular(transitions),
    ensures
        transitions.contains(s) <==> s > 0 && signal::level(first_value, transitions, s as int)
            != signal::level(first_value, transitions, s - 1),
{
    signal::lemma_ascending_sorted(transitions);
    if transitions.contains(s) {
        lemma_count_at_transition(transitions, transitions.index_of(s));
    } else {
        signal::lemma_count_below_sorted(transitions, s as int);
        let c = signal::count_below(transitions, s as int) as int;
        assert forall|i: int| c <= i < transitions.len() implies transitions[i] >= s + 1 by {
            assert(transitions.contains(transitions[i]));
        }
        signal::lemma_count_below_split(transitions, s + 1, c);
    }
}

/// A transition after which the level is high is among the rising edges.
proof fn lemma_rising_holds(first_value: u8, transitions: Seq<u64>, lo: int, hi: int, j: int)
    requires
        0 <= lo <= j < hi <= transitions.len(),
        (first_value + j + 1) % 2 == 1,
    ensures
        qspi::rising(first_value, transitions, lo, hi).contains(transitions[j]),
    decreases hi,
{
    let all = qspi::rising(first_value, transitions, lo, hi);
    if j == hi - 1 {
        assert(all[all.len() - 1] == transitions[j]);
    } else {
        lemma_rising_holds(first_value, transitions, lo, hi - 1, j);
        let shorter = qspi::rising(first_value, transitions, lo, hi - 1);
        let k = shorter.index_of(transitions[j]);
        assert(all[k] == transitions[j]);
    }
}

/// The rising edges that a range of samples holds are listed as such.
pub proof fn law_rising_edges_list_rises(
    first_value: u8,
    transitions: Seq<u64>,
    from: int,
    to: int,
)
    requires
        regular(transitions),
        0 <= from,
    ensures
        lists_rises(
            qspi::rising(
                first_value,
                transitions,
                signal::count_below(transitions, from) as int,
                signal::count_below(transitions, to) as int,
            ),
            first_value,
            transitions,
            from,
            to,
        ),
{
    signal::lemma_ascending_sorted(transitions);
    signal::lemma_count_below_sorted(transitions, from);
    signal::lemma_count_below_sorted(transitions, to);
    let lo = signal::count_below(transitions, from) as int;
    let hi = signal::count_below(transitions, to) as int;
    let edges = qspi::rising(first_value, transitions, lo, hi);
    if lo <= hi {
        qspi::law_rising_edges_are_high(first_value, transitions, lo, hi);
    }
    assert forall|s: u64| #[trigger] edges.contains(s) <==> from <= s < to && rises(
        first_value,
        transitions,
        s as int,
    ) by {
        if edges.contains(s) {
            let k = edges.index_of(s);
            assert(edges[k] == s);
            let j = choose|j: int| lo <= j < hi && edges[k] == #[trigger] transitions[j];
            assert(transitions[j] == s);
            assert(transitions.contains(s));
            law_transitions_are_changes(first_value, transitions, s);
        }
        if from <= s < to && rises(first_value, transitions, s as int) {
            law_transitions_are_changes(first_value, transitions, s);
            let j = transitions.index_of(s);
            lemma_count_at_transition(transitions, j);
            assert(transitions[j] == s);
            assert(lo <= j < hi);
            lemma_rising_holds(first_value, transitions, lo, hi, j);
        }
    }
}

/// Views of channels show the four data bits of a sample, D3 highest.
pub proof fn law_views_show_the_bus(data: &DataLines<'_>, a: u64, b: u64)
    ensures
        data.bus().byte(a, b) as int == 128 * signal::level(
            data.d3.first_value,
            data.d3.transitions@,
            a as int,
        ) + 64 * signal::level(data.d2.first_value, data.d2.transitions@, a as int) + 32
            * signal::level(data.d1.first_value, data.d1.transitions@, a as int) + 16
            * signal::level(data.d0.first_value, data.d0.transitions@, a as int) + 8
            * signal::level(data.d3.first_value, data.d3.transitions@, b as int) + 4
            * signal::level(data.d2.first_value, data.d2.transitions@, b as int) + 2
            * signal::level(data.d1.first_value, data.d1.transitions@, b as int)
            + signal::level(data.d0.first_value, data.d0.transitions@, b as int),
{
}

/// The byte that four data channels show at two samples: D3 to D0 at the first,
/// then D3 to D0 at the second.
pub open spec fn byte_shown(
    store: EdgeStore,
    d0: int,
    d1: int,
    d2: int,
    d3: int,
    a: u64,
    b: u64,
) -> int {
    128 * level_of(store, d3, a as int) + 64 * level_of(store, d2, a as int) + 32 * level_of(
        store,
        d1,
        a as int,
    ) + 16 * level_of(store, d0, a as int) + 8 * level_of(store, d3, b as int) + 4 * level_of(
        store,
        d2,
        b as int,
    ) + 2 * level_of(store, d1, b as int) + level_of(store, d0, b as int)
}

/// Whether channel `ch` is the first to play `role`.
pub open spec fn plays(config: QspiConfig, role: QspiRole, ch: int) -> bool {
    &&& 0 <= ch < config.channel_roles@.len()
    &&& config.channel_roles@[ch] == role
    &&& forall|k: int| 0 <= k < ch ==> config.channel_roles@[k] != role
}

/// The first channel to play a role is the one that is taken for it, and a role
/// that no channel plays is not taken.
pub proof fn law_first_player_is_taken(config: QspiConfig, role: QspiRole, ch: int)
    ensures
        plays(config, role, ch) <==> config.role_channel(role) == Some(ch),
        config.role_channel(role) is None <==> !config.channel_roles@.contains(role),
{
    config.channel_roles@.index_of_first_ensures(role);
    if plays(config, role, ch) {
        assert(config.channel_roles@.contains(role));
    }
}

/// A clock samples a byte with every two of its rising edges, in turn: the
/// bytes of a transaction are what the data lines show at the samples of the
/// transaction at which the clock goes from low to high, whatever its level
/// was before, but for a last odd one.
pub proof fn law_bytes_are_sampled_at_rises(
    clk: qspi::Line,
    bus: qspi::Bus,
    start: u64,
    end: u64,
    edges: Seq<u64>,
)
    requires
        regular(clk.transitions),
        lists_rises(edges, clk.first_value, clk.transitions, start as int, end as int),
    ensures
        qspi_stats::clocked_bytes(clk, bus, start, end).len() == edges.len() / 2,
        forall|i: int|
            0 <= i < edges.len() / 2 ==> (#[trigger] qspi_stats::clocked_bytes(
                clk,
                bus,
                start,
                end,
            )[i]) as int == 128 * signal::level(
                bus.d3.first_value,
                bus.d3.transitions,
                edges[2 * i] as int,
            ) + 64 * signal::level(bus.d2.first_value, bus.d2.transitions, edges[2 * i] as int) + 32
                * signal::level(bus.d1.first_value, bus.d1.transitions, edges[2 * i] as int) + 16
                * signal::level(bus.d0.first_value, bus.d0.transitions, edges[2 * i] as int) + 8
                * signal::level(bus.d3.first_value, bus.d3.transitions, edges[2 * i + 1] as int) + 4
                * signal::level(bus.d2.first_value, bus.d2.transitions, edges[2 * i + 1] as int) + 2
                * signal::level(bus.d1.first_value, bus.d1.transitions, edges[2 * i + 1] as int)
                + signal::level(bus.d0.first_value, bus.d0.transitions, edges[2 * i + 1] as int),
{
    law_rising_edges_list_rises(clk.first_value, clk.transitions, start as int, end as int);
    let found = qspi::rising(
        clk.first_value,
        clk.transitions,
        signal::count_below(clk.transitions, start as int) as int,
        signal::count_below(clk.transitions, end as int) as int,
    );
    assert forall|s: u64| #[trigger] edges.contains(s) <==> found.contains(s) by {}
    lemma_ascending_unique(edges, found);
}

/// Whether a word was sampled at `a` and `b`.
pub open spec fn has_word(words: Seq<QspiWord>, a: u64, b: u64) -> bool {
    exists|k: int|
        0 <= k < words.len() && (#[trigger] words[k]).sample_a == a && words[k].sample_b == b
}

/// Whether select is low at each of the edges `from` to `to` (without `to`).
pub open spec fn low_through(cs: qspi::Line, edges: Seq<u64>, from: int, to: int) -> bool {
    forall|k: int|
        from <= k < to ==> signal::level(
            cs.first_value,
            cs.transitions,
            (#[trigger] edges[k]) as int,
        ) == 0
}

/// Whether a run of edges with select low starts at edge `r`: there is no edge
/// before it, or one with select high.
pub open spec fn run_starts(cs: qspi::Line, edges: Seq<u64>, r: int) -> bool {
    r == 0 || signal::level(cs.first_value, cs.transitions, edges[r - 1] as int) != 0
}

/// Whether edge `i` stands an even number of edges behind the start of its run.
pub open spec fn even_in_run(cs: qspi::Line, edges: Seq<u64>, i: int) -> bool {
    exists|r: int|
        0 <= r <= i && (i - r) % 2 == 0 && #[trigger] run_starts(cs, edges, r) && low_through(
            cs,
            edges,
            r,
            i,
        )
}

/// Whether the edges `j` and `j + 1` are a pair: select is low at both, and `j`
/// stands an even number of edges behind the start of the run.
pub open spec fn paired(cs: qspi::Line, edges: Seq<u64>, j: int) -> bool {
    low_through(cs, edges, j, j + 2) && even_in_run(cs, edges, j)
}

/// No two neighbouring edges of one run both stand an even number of edges
/// behind its start.
proof fn lemma_even_in_run_alternates(cs: qspi::Line, edges: Seq<u64>, i: int)
    requires
        0 <= i < edges.len(),
        even_in_run(cs, edges, i),
        cs.at(edges[i]) == 0,
    ensures
        !even_in_run(cs, edges, i + 1),
{
    if even_in_run(cs, edges, i + 1) {
        let r = choose|r: int|
            0 <= r <= i && (i - r) % 2 == 0 && #[trigger] run_starts(cs, edges, r) && low_through(
                cs,
                edges,
                r,
                i,
            );
        let q = choose|q: int|
            0 <= q <= i + 1 && (i + 1 - q) % 2 == 0 && #[trigger] run_starts(cs, edges, q)
                && low_through(cs, edges, q, i + 1);
        if q < r {
            assert(signal::level(cs.first_value, cs.transitions, edges[r - 1] as int) == 0);
        } else if r < q {
            if q - 1 < i {
                assert(signal::level(cs.first_value, cs.transitions, edges[q - 1] as int) == 0);
            } else {
                assert(edges[q - 1] == edges[i]);
            }
        }
    }
}

/// Words that are read from edge `i` on are sampled at edge `i` or later.
proof fn lemma_words_start_at(
    cs: qspi::Line,
    bus: qspi::Bus,
    edges: Seq<u64>,
    i: int,
    first_sample: u64,
    j: int,
)
    requires
        signal::ascending(edges),
        0 <= j < i,
        j < edges.len() - 1,
    ensures
        !has_word(qspi::words_from(cs, bus, edges, i, first_sample), edges[j], edges[j + 1]),
{
    let words = qspi::words_from(cs, bus, edges, i, first_sample);
    qspi::law_words_are_selected(cs, bus, edges, i, first_sample);
    if has_word(words, edges[j], edges[j + 1]) {
        let k = choose|k: int|
            0 <= k < words.len() && (#[trigger] words[k]).sample_a == edges[j]
                && words[k].sample_b == edges[j + 1];
        let l = choose|l: int| i <= l && #[trigger] qspi::word_at(cs, bus, edges, l, words[k]);
        assert(edges[j] < edges[l]);
    }
}

/// Read from an edge that stands an even number of edges behind the start of
/// its run, a pair of edges yields a word exactly if it ends at or after
/// `first_sample`, and edges that are no pair yield none.
pub proof fn law_every_pair_is_read(
    cs: qspi::Line,
    bus: qspi::Bus,
    edges: Seq<u64>,
    i: int,
    first_sample: u64,
    j: int,
)
    requires
        signal::ascending(edges),
        0 <= i <= j < edges.len() - 1,
        even_in_run(cs, edges, i),
    ensures
        has_word(qspi::words_from(cs, bus, edges, i, first_sample), edges[j], edges[j + 1])
            <==> edges[j + 1] >= first_sample && paired(cs, edges, j),
    decreases edges.len() - i,
{
    let words = qspi::words_from(cs, bus, edges, i, first_sample);
    let a = edges[i];
    let b = edges[i + 1];
    if cs.at(a) != 0 {
        assert(run_starts(cs, edges, i + 1));
        assert(even_in_run(cs, edges, i + 1));
        if j == i {
            lemma_words_start_at(cs, bus, edges, i + 1, first_sample, j);
            assert(!low_through(cs, edges, j, j + 2));
        } else {
            law_every_pair_is_read(cs, bus, edges, i + 1, first_sample, j);
        }
    } else if cs.at(b) != 0 {
        assert(words == qspi::words_from(cs, bus, edges, i + 1, first_sample));
        assert(words == qspi::words_from(cs, bus, edges, i + 2, first_sample));
        assert(run_starts(cs, edges, i + 2));
        assert(even_in_run(cs, edges, i + 2));
        if j <= i + 1 {
            lemma_words_start_at(cs, bus, edges, i + 2, first_sample, j);
            assert(edges[i + 1] == b);
            assert(!low_through(cs, edges, j, j + 2));
        } else {
            law_every_pair_is_read(cs, bus, edges, i + 2, first_sample, j);
        }
    } else {
        let rest = qspi::words_from(cs, bus, edges, i + 2, first_sample);
        let r = choose|r: int|
            0 <= r <= i && (i - r) % 2 == 0 && #[trigger] run_starts(cs, edges, r) && low_through(
                cs,
                edges,
                r,
                i,
            );
        assert(low_through(cs, edges, r, i + 2));
        assert(run_starts(cs, edges, r));
        assert(even_in_run(cs, edges, i + 2));
        lemma_even_in_run_alternates(cs, edges, i);
        let counts = b >= first_sample;
        assert forall|x: u64, y: u64| x != a implies (has_word(words, x, y) <==> has_word(
            rest,
            x,
            y,
        )) by {
            if has_word(words, x, y) {
                let k = choose|k: int|
                    0 <= k < words.len() && (#[trigger] words[k]).sample_a == x
                        && words[k].sample_b == y;
                if counts {
                    assert(words[k] == rest[k - 1]);
                }
            }
            if has_word(rest, x, y) {
                let k = choose|k: int|
                    0 <= k < rest.len() && (#[trigger] rest[k]).sample_a == x && rest[k].sample_b
                        == y;
                if counts {
                    assert(words[k + 1] == rest[k]);
                } else {
                    assert(words[k] == rest[k]);
                }
            }
        }
        if j == i {
            lemma_words_start_at(cs, bus, edges, i + 2, first_sample, j);
            assert(low_through(cs, edges, j, j + 2));
            if counts {
                assert(words[0].sample_a == a && words[0].sample_b == b);
            }
        } else {
            assert(edges[i] < edges[j]);
            if j == i + 1 {
                lemma_words_start_at(cs, bus, edges, i + 2, first_sample, j);
            } else {
                law_every_pair_is_read(cs, bus, edges, i + 2, first_sample, j);
            }
        }
    }
}

/// An edge at which select is high is passed over: it makes no difference.
pub proof fn law_deselected_edges_are_passed_over(
    cs: qspi::Line,
    bus: qspi::Bus,
    edges: Seq<u64>,
    i: int,
    first_sample: u64,
)
    requires
        0 <= i < edges.len(),
        signal::level(cs.first_value, cs.transitions, edges[i] as int) == 1,
    ensures
        qspi::words_from(cs, bus, edges, i, first_sample) == qspi::words_from(
            cs,
            bus,
            edges,
            i + 1,
            first_sample,
        ),
{
}

/// The first sample that the decoder looks at lies one viewport to the left of
/// the viewport, or at the start of the recording where that is nearer.
pub open spec fn looks_from(from: int, first_sample: u64, last_sample: u64) -> bool {
    (from >= 0 && first_sample - from == last_sample - first_sample) || (from == 0 && first_sample
        < last_sample - first_sample)
}

/// A viewport shows all there is to decode, and nothing else. Where `edges` are
/// the samples, from one viewport to its left up to its end, at which the clock
/// goes from low to high, the words are the pairs of neighbouring edges with
/// select low, counted off from the start of each run of such edges, that end
/// in the viewport.
pub proof fn law_viewport_shows_every_pair(
    store: EdgeStore,
    config: QspiConfig,
    first_sample: u64,
    last_sample: u64,
    clk: int,
    cs: int,
    from: int,
    edges: Seq<u64>,
    j: int,
)
    requires
        store.wf(),
        store.sized(),
        forall|role: QspiRole| config.channel_roles@.contains(role),
        config.channel_roles@.len() == store.num_channels,
        plays(config, QspiRole::Clk, clk),
        plays(config, QspiRole::Cs, cs),
        first_sample <= last_sample,
        looks_from(from, first_sample, last_sample),
        lists_rises(
            edges,
            store.first_value(clk),
            store.transitions(clk),
            from,
            last_sample as int,
        ),
        0 <= j < edges.len() - 1,
    ensures
        has_word(
            qspi::decoded(store, config, first_sample, last_sample),
            edges[j],
            edges[j + 1],
        ) <==> edges[j + 1] >= first_sample && paired(
            (qspi::Line {
                first_value: store.first_value(cs),
                transitions: store.transitions(cs),
            }),
            edges,
            j,
        ),
{
    lemma_viewport_edges(store, config, first_sample, last_sample, clk, from, edges);
    law_first_player_is_taken(config, QspiRole::Cs, cs);
    let select = qspi::line_of(store, cs);
    assert(run_starts(select, edges, 0));
    assert(even_in_run(select, edges, 0));
    law_every_pair_is_read(select, config.bus(store), edges, 0, first_sample, j);
}

/// Where every role is played, the configuration is complete.
proof fn lemma_all_played(config: QspiConfig)
    requires
        forall|role: QspiRole| config.channel_roles@.contains(role),
    ensures
        config.complete(),
{
    law_first_player_is_taken(config, QspiRole::Clk, 0);
    law_first_player_is_taken(config, QspiRole::Cs, 0);
    law_first_player_is_taken(config, QspiRole::D0, 0);
    law_first_player_is_taken(config, QspiRole::D1, 0);
    law_first_player_is_taken(config, QspiRole::D2, 0);
    law_first_player_is_taken(config, QspiRole::D3, 0);
}

/// The edges that the decoder looks at are the rises of the clock.
proof fn lemma_viewport_edges(
    store: EdgeStore,
    config: QspiConfig,
    first_sample: u64,
    last_sample: u64,
    clk: int,
    from: int,
    edges: Seq<u64>,
)
    requires
        store.wf(),
        store.sized(),
        forall|role: QspiRole| config.channel_roles@.contains(role),
        config.channel_roles@.len() == store.num_channels,
        plays(config, QspiRole::Clk, clk),
        first_sample <= last_sample,
        looks_from(from, first_sample, last_sample),
        lists_rises(
            edges,
            store.first_value(clk),
            store.transitions(clk),
            from,
            last_sample as int,
        ),
    ensures
        qspi::decoded(store, config, first_sample, last_sample) == qspi::words_from(
            qspi::line_of(store, config.played_by(QspiRole::Cs)),
            config.bus(store),
            edges,
            0,
            first_sample,
        ),
{
    law_first_player_is_taken(config, QspiRole::Clk, clk);
    lemma_all_played(config);
    lemma_channel_regular(store, clk);
    let line = qspi::line_of(store, clk);
    law_rising_edges_list_rises(line.first_value, line.transitions, from, last_sample as int);
    let found = qspi::rising(
        line.first_value,
        line.transitions,
        signal::count_below(line.transitions, from) as int,
        signal::count_below(line.transitions, last_sample as int) as int,
    );
    assert forall|s: u64| #[trigger] edges.contains(s) <==> found.contains(s) by {}
    lemma_ascending_unique(edges, found);
}

/// Whether `a` and `b` follow each other among the edges.
pub open spec fn neighbours(edges: Seq<u64>, a: u64, b: u64) -> bool {
    exists|j: int| 0 <= j < edges.len() - 1 && a == #[trigger] edges[j] && b == edges[j + 1]
}

/// Every word that a viewport shows is the byte that the data channels show at
/// two neighbouring rises of the clock, and the words follow each other.
pub proof fn law_viewport_words_are_bytes(
    store: EdgeStore,
    config: QspiConfig,
    first_sample: u64,
    last_sample: u64,
    clk: int,
    data: (int, int, int, int),
    from: int,
    edges: Seq<u64>,
)
    requires
        store.wf(),
        store.sized(),
        forall|role: QspiRole| config.channel_roles@.contains(role),
        config.channel_roles@.len() == store.num_channels,
        plays(config, QspiRole::Clk, clk),
        plays(config, QspiRole::D0, data.0),
        plays(config, QspiRole::D1, data.1),
        plays(config, QspiRole::D2, data.2),
        plays(config, QspiRole::D3, data.3),
        first_sample <= last_sample,
        looks_from(from, first_sample, last_sample),
        lists_rises(
            edges,
            store.first_value(clk),
            store.transitions(clk),
            from,
            last_sample as int,
        ),
    ensures
        forall|k: int|
            0 <= k < qspi::decoded(store, config, first_sample, last_sample).len() ==> {
                let word = #[trigger] qspi::decoded(store, config, first_sample, last_sample)[k];
                &&& neighbours(edges, word.sample_a, word.sample_b)
                &&& word.byte as int == byte_shown(
                    store,
                    data.0,
                    data.1,
                    data.2,
                    data.3,
                    word.sample_a,
                    word.sample_b,
                )
            },
        forall|k: int, l: int|
            0 <= k < l < qspi::decoded(store, config, first_sample, last_sample).len() ==> (
            #[trigger] qspi::decoded(store, config, first_sample, last_sample)[k]).sample_b < (
            #[trigger] qspi::decoded(store, config, first_sample, last_sample)[l]).sample_a,
{
    lemma_viewport_edges(store, config, first_sample, last_sample, clk, from, edges);
    law_first_player_is_taken(config, QspiRole::D0, data.0);
    law_first_player_is_taken(config, QspiRole::D1, data.1);
    law_first_player_is_taken(config, QspiRole::D2, data.2);
    law_first_player_is_taken(config, QspiRole::D3, data.3);
    let select = qspi::line_of(store, config.played_by(QspiRole::Cs));
    let bus = config.bus(store);
    let words = qspi::words_from(select, bus, edges, 0, first_sample);
    qspi::law_words_are_selected(select, bus, edges, 0, first_sample);
    qspi::law_words_in_order(select, bus, edges, 0, first_sample);
    assert forall|k: int| 0 <= k < words.len() implies {
        let word = #[trigger] words[k];
        &&& neighbours(edges, word.sample_a, word.sample_b)
        &&& word.byte as int == byte_shown(
            store,
            data.0,
            data.1,
            data.2,
            data.3,
            word.sample_a,
            word.sample_b,
        )
    } by {
        let j = choose|j: int| 0 <= j && #[trigger] qspi::word_at(select, bus, edges, j, words[k]);
        assert(words[k].sample_a == edges[j]);
    }
}

/// Where a role is not played, nothing is decoded.
pub proof fn law_nothing_is_decoded_without_a_line(
    store: EdgeStore,
    config: QspiConfig,
    first_sample: u64,
    last_sample: u64,
    role: QspiRole,
)
    requires
        !config.channel_roles@.contains(role),
    ensures
        qspi::decoded(store, config, first_sample, last_sample) == Seq::<QspiWord>::empty(),
{
    law_first_player_is_taken(config, role, 0);
}

/// Statistics hold one packet for each transaction, in the same order, and its
/// bytes are what the data channels show at the samples of the transaction at
/// which the clock channel goes from low to high.
pub proof fn law_packets_are_read_off_the_channels(
    stats: qspi_stats::PacketStats,
    store: EdgeStore,
    config: QspiConfig,
    transactions: Seq<Transaction>,
    samplerate_hz: u64,
    exclude_timing_outliers: bool,
    channels: (int, int, int, int, int),
    i: int,
    edges: Seq<u64>,
)
    requires
        store.wf(),
        store.sized(),
        qspi_stats::stats_of(
            stats,
            store,
            config,
            transactions,
            samplerate_hz,
            exclude_timing_outliers,
        ),
        config.channel_roles@.len() == store.num_channels,
        plays(config, QspiRole::Clk, channels.0),
        plays(config, QspiRole::D0, channels.1),
        plays(config, QspiRole::D1, channels.2),
        plays(config, QspiRole::D2, channels.3),
        plays(config, QspiRole::D3, channels.4),
        0 <= i < transactions.len(),
        lists_rises(
            edges,
            store.first_value(channels.0),
            store.transitions(channels.0),
            transactions[i].start as int,
            transactions[i].end as int,
        ),
    ensures
        stats.packets@.len() == transactions.len(),
        stats.packets@[i].tx_idx == i,
        stats.packets@[i].crc == qspi_stats::crc_of(stats.packets@[i].bytes@),
        stats.packets@[i].bytes@.len() == edges.len() / 2,
        forall|k: int|
            0 <= k < edges.len() / 2 ==> (#[trigger] stats.packets@[i].bytes@[k]) as int
                == byte_shown(
                store,
                channels.1,
                channels.2,
                channels.3,
                channels.4,
                edges[2 * k],
                edges[2 * k + 1],
            ),
{
    law_first_player_is_taken(config, QspiRole::Clk, channels.0);
    law_first_player_is_taken(config, QspiRole::D0, channels.1);
    law_first_player_is_taken(config, QspiRole::D1, channels.2);
    law_first_player_is_taken(config, QspiRole::D2, channels.3);
    law_first_player_is_taken(config, QspiRole::D3, channels.4);
    lemma_channel_regular(store, channels.0);
    assert(qspi_stats::packet_of(stats.packets@[i], store, config, transactions, i));
    let clk = qspi::line_of(store, channels.0);
    let bus = config.bus(store);
    let tx = transactions[i];
    law_bytes_are_sampled_at_rises(clk, bus, tx.start, tx.end, edges);
    assert forall|k: int| 0 <= k < edges.len() / 2 implies (
    #[trigger] stats.packets@[i].bytes@[k]) as int == byte_shown(
        store,
        channels.1,
        channels.2,
        channels.3,
        channels.4,
        edges[2 * k],
        edges[2 * k + 1],
    ) by {
        assert(stats.packets@[i].bytes@[k] == qspi_stats::clocked_bytes(
            clk,
            bus,
            tx.start,
            tx.end,
        )[k]);
    }
}

/// Whether channel `cs` stays low all through a window that could not be
/// longer: it starts with the recording or where the channel goes low, and ends
/// where the channel goes high, or with the recording if it never does.
pub open spec fn low_run(store: EdgeStore, cs: int, tx: Transaction) -> bool {
    &&& level_of(store, cs, tx.start as int) == 0
    &&& tx.start == 0 || level_of(store, cs, tx.start - 1) == 1
    &&& {
        ||| {
            &&& tx.start < tx.end
            &&& forall|s: int| tx.start <= s < tx.end ==> #[trigger] level_of(store, cs, s) == 0
            &&& level_of(store, cs, tx.end as int) == 1
        }
        ||| {
            &&& tx.end == store.total_samples
            &&& forall|s: int| tx.start <= s ==> #[trigger] level_of(store, cs, s) == 0
        }
    }
}

/// Whether channel `clk` changes its level within a window.
pub open spec fn changes_within(store: EdgeStore, clk: int, tx: Transaction) -> bool {
    exists|s: int|
        0 < s && tx.start <= s < tx.end && #[trigger] level_of(store, clk, s) != level_of(
            store,
            clk,
            s - 1,
        )
}

/// Between two transitions the number of transitions so far stands still.
proof fn lemma_count_between(transitions: Seq<u64>, k: int, s: int)
    requires
        signal::ascending(transitions),
        0 <= k <= transitions.len(),
        k > 0 ==> transitions[k - 1] <= s,
        k < transitions.len() ==> s < transitions[k],
    ensures
        signal::count_below(transitions, s + 1) == k,
{
    assert forall|i: int| 0 <= i < k implies transitions[i] < s + 1 by {
        if i < k - 1 {
            assert(transitions[i] < transitions[k - 1]);
        }
    }
    assert forall|i: int| k <= i < transitions.len() implies transitions[i] >= s + 1 by {
        if i > k {
            assert(transitions[k] < transitions[i]);
        }
    }
    signal::lemma_count_below_split(transitions, s + 1, k);
}

/// How many bounds a line has before its transitions.
spec fn lead(first_value: u8) -> int {
    if first_value == 0 {
        1
    } else {
        0
    }
}

/// A window runs from one transition to the next, or from the start of the
/// recording, or to its end.
proof fn lemma_window_bounds(first_value: u8, ts: Seq<u64>, total: u64, i: int) -> (c: int)
    requires
        first_value <= 1,
        0 <= i < qspi::windows_of(first_value, ts, total).len(),
    ensures
        0 <= c <= ts.len(),
        (first_value + c) % 2 == 0,
        qspi::windows_of(first_value, ts, total)[i].start == if c > 0 {
            ts[c - 1]
        } else {
            0
        },
        qspi::windows_of(first_value, ts, total)[i].end == if c < ts.len() {
            ts[c]
        } else {
            total
        },
{
    let bounds = qspi::active_bounds(first_value, ts, total);
    let txs = qspi::windows_of(first_value, ts, total);
    assert(txs.len() == bounds.len() / 2);
    assert(txs[i].start == bounds[2 * i] && txs[i].end == bounds[2 * i + 1]);
    qspi::lemma_active_bound(first_value, ts, total, 2 * i);
    qspi::lemma_active_bound(first_value, ts, total, 2 * i + 1);
    2 * i + 1 - lead(first_value)
}

/// A window from one transition to the next is a low run if the level between
/// them is low.
proof fn lemma_window_is_low_run(store: EdgeStore, cs: int, tx: Transaction, c: int)
    requires
        regular(store.transitions(cs)),
        0 <= c <= store.transitions(cs).len(),
        (store.first_value(cs) + c) % 2 == 0,
        tx.start == if c > 0 {
            store.transitions(cs)[c - 1]
        } else {
            0
        },
        tx.end == if c < store.transitions(cs).len() {
            store.transitions(cs)[c]
        } else {
            store.total_samples
        },
    ensures
        low_run(store, cs, tx),
{
    let ts = store.transitions(cs);
    assert(0 < c < ts.len() ==> ts[c - 1] < ts[c]);
    lemma_count_between(ts, c, tx.start as int);
    if tx.start > 0 {
        assert(c > 1 ==> ts[c - 2] < ts[c - 1]);
        lemma_count_between(ts, c - 1, tx.start - 1);
    }
    if c < ts.len() {
        assert forall|s: int| tx.start <= s < tx.end implies #[trigger] level_of(store, cs, s)
            == 0 by {
            lemma_count_between(ts, c, s);
        }
        assert(c + 1 < ts.len() ==> ts[c] < ts[c + 1]);
        lemma_count_between(ts, c + 1, tx.end as int);
    } else {
        assert forall|s: int| tx.start <= s implies #[trigger] level_of(store, cs, s) == 0 by {
            lemma_count_between(ts, c, s);
        }
    }
}

/// A low run goes from one transition to the next, or from the start of the
/// recording, or to its end.
proof fn lemma_low_run_bounds(store: EdgeStore, cs: int, tx: Transaction) -> (c: int)
    requires
        regular(store.transitions(cs)),
        store.first_value(cs) <= 1,
        low_run(store, cs, tx),
    ensures
        0 <= c <= store.transitions(cs).len(),
        (store.first_value(cs) + c) % 2 == 0,
        tx.start == if c > 0 {
            store.transitions(cs)[c - 1]
        } else {
            0
        },
        tx.end == if c < store.transitions(cs).len() {
            store.transitions(cs)[c]
        } else {
            store.total_samples
        },
{
    let first = store.first_value(cs);
    let ts = store.transitions(cs);
    signal::lemma_ascending_sorted(ts);
    signal::lemma_count_below_sorted(ts, tx.start + 1);
    let c = signal::count_below(ts, tx.start + 1) as int;
    if tx.start == 0 {
        if c > 0 {
            assert(ts[0] > 0);
        }
    } else {
        law_transitions_are_changes(first, ts, tx.start);
        let j = ts.index_of(tx.start);
        lemma_count_at_transition(ts, j);
        assert(c == j + 1 && ts[c - 1] == tx.start);
    }
    if c < ts.len() {
        let t = ts[c] as int;
        assert(c > 0 ==> ts[c - 1] < ts[c]);
        assert(c + 1 < ts.len() ==> ts[c] < ts[c + 1]);
        lemma_count_between(ts, c + 1, t);
        assert(level_of(store, cs, t) == 1);
        if tx.end < t && tx.start < tx.end {
            lemma_count_between(ts, c, tx.end as int);
        }
        assert(tx.end == t);
    } else if tx.start < tx.end {
        lemma_count_between(ts, c, tx.end as int);
        assert(level_of(store, cs, tx.end as int) == 0);
    }
    c
}

/// A window from one transition to the next is found if the level between them
/// is low.
proof fn lemma_window_is_found(
    first_value: u8,
    ts: Seq<u64>,
    total: u64,
    tx: Transaction,
    c: int,
)
    requires
        first_value <= 1,
        0 <= c <= ts.len(),
        (first_value + c) % 2 == 0,
        tx.start == if c > 0 {
            ts[c - 1]
        } else {
            0
        },
        tx.end == if c < ts.len() {
            ts[c]
        } else {
            total
        },
    ensures
        qspi::windows_of(first_value, ts, total).contains(tx),
{
    let bounds = qspi::active_bounds(first_value, ts, total);
    let txs = qspi::windows_of(first_value, ts, total);
    let k = lead(first_value) + c - 1;
    let i = k / 2;
    assert(k == 2 * i);
    assert(bounds.len() % 2 == 0 && k + 1 < bounds.len());
    qspi::lemma_active_bound(first_value, ts, total, k);
    qspi::lemma_active_bound(first_value, ts, total, k + 1);
    assert(txs[i] == (Transaction { start: bounds[2 * i], end: bounds[2 * i + 1] }));
    assert(txs[i] == tx);
}

/// The windows of the select line are the low runs of its channel: every low
/// run is one of them, however many there are, and nothing else is.
pub proof fn law_windows_are_the_low_runs(
    store: EdgeStore,
    config: QspiConfig,
    cs: int,
    tx: Transaction,
)
    requires
        store.wf(),
        store.sized(),
        config.channel_roles@.len() == store.num_channels,
        plays(config, QspiRole::Cs, cs),
    ensures
        qspi::select_windows(store, config).contains(tx) <==> low_run(store, cs, tx),
{
    law_first_player_is_taken(config, QspiRole::Cs, cs);
    lemma_channel_regular(store, cs);
    let txs = qspi::select_windows(store, config);
    if txs.contains(tx) {
        let i = txs.index_of(tx);
        let c = lemma_window_bounds(
            store.first_value(cs),
            store.transitions(cs),
            store.total_samples,
            i,
        );
        assert(txs[i] == tx);
        lemma_window_is_low_run(store, cs, tx, c);
    }
    if low_run(store, cs, tx) {
        let c = lemma_low_run_bounds(store, cs, tx);
        lemma_window_is_found(
            store.first_value(cs),
            store.transitions(cs),
            store.total_samples,
            tx,
            c,
        );
    }
}

/// Before the end of the recording, the select channel is low at a sample
/// exactly if the sample lies in one of the windows.
pub proof fn law_low_samples_are_covered(
    store: EdgeStore,
    config: QspiConfig,
    cs: int,
    s: u64,
)
    requires
        store.wf(),
        store.sized(),
        config.channel_roles@.len() == store.num_channels,
        plays(config, QspiRole::Cs, cs),
        s < store.total_samples,
    ensures
        level_of(store, cs, s as int) == 0 <==> exists|i: int|
            0 <= i < qspi::select_windows(store, config).len() && (#[trigger] qspi::select_windows(
                store,
                config,
            )[i]).start <= s < qspi::select_windows(store, config)[i].end,
{
    law_first_player_is_taken(config, QspiRole::Cs, cs);
    lemma_channel_regular(store, cs);
    qspi::law_select_windows_are_active(
        store.first_value(cs),
        store.transitions(cs),
        store.total_samples,
        s,
    );
    let txs = qspi::select_windows(store, config);
    if qspi::covered(txs, s) {
        let i = choose|i: int| 0 <= i < txs.len() && (#[trigger] txs[i]).start <= s < txs[i].end;
        assert(txs[i].start <= s < txs[i].end);
    }
}

/// The transactions are the low runs of the select channel within which the
/// clock channel changes its level: every such run is one of them, however many
/// there are, and nothing else is.
pub proof fn law_transactions_are_clocked_low_runs(
    store: EdgeStore,
    config: QspiConfig,
    cs: int,
    clk: int,
    tx: Transaction,
)
    requires
        store.wf(),
        store.sized(),
        config.channel_roles@.len() == store.num_channels,
        plays(config, QspiRole::Cs, cs),
        plays(config, QspiRole::Clk, clk),
    ensures
        qspi::found_transactions(store, config).contains(tx) <==> low_run(store, cs, tx)
            && changes_within(store, clk, tx),
{
    law_windows_are_the_low_runs(store, config, cs, tx);
    law_first_player_is_taken(config, QspiRole::Clk, clk);
    qspi::law_transactions_are_clocked_windows(store, config, tx);
    lemma_channel_regular(store, clk);
    let ts = store.transitions(clk);
    if qspi::clocked(ts, tx) {
        let i = choose|i: int| 0 <= i < ts.len() && tx.start <= #[trigger] ts[i] < tx.end;
        assert(ts.contains(ts[i]));
        law_transitions_are_changes(store.first_value(clk), ts, ts[i]);
        assert(level_of(store, clk, ts[i] as int) != level_of(store, clk, ts[i] - 1));
    }
    if changes_within(store, clk, tx) {
        let s = choose|s: int|
            0 < s && tx.start <= s < tx.end && #[trigger] level_of(store, clk, s) != level_of(
                store,
                clk,
                s - 1,
            );
        law_transitions_are_changes(store.first_value(clk), ts, s as u64);
        let i = ts.index_of(s as u64);
        assert(tx.start <= ts[i] < tx.end);
    }
}

/// Where no channel plays the clock, every low run of the select channel is a
/// transaction, and where no channel plays select there is none.
pub proof fn law_transactions_without_a_line(
    store: EdgeStore,
    config: QspiConfig,
    cs: int,
    tx: Transaction,
)
    requires
        store.wf(),
        store.sized(),
        config.channel_roles@.len() == store.num_channels,
    ensures
        plays(config, QspiRole::Cs, cs) && !config.channel_roles@.contains(QspiRole::Clk) ==> (
        qspi::found_transactions(store, config).contains(tx) <==> low_run(store, cs, tx)),
        !config.channel_roles@.contains(QspiRole::Cs) ==> qspi::found_transactions(
            store,
            config,
        ).len() == 0,
{
    law_first_player_is_taken(config, QspiRole::Clk, 0);
    law_first_player_is_taken(config, QspiRole::Cs, cs);
    if plays(config, QspiRole::Cs, cs) {
        law_windows_are_the_low_runs(store, config, cs, tx);
    }
    if !config.channel_roles@.contains(QspiRole::Cs) {
        let found = qspi::found_transactions(store, config);
        if found.len() > 0 && config.role_channel(QspiRole::Clk) is Some {
            assert(found.contains(found[0]));
            qspi::law_transactions_are_clocked_windows(store, config, found[0]);
        }
    }
}

/// No change of the clock while select is low gets lost: before the end of the
/// recording, the sample of the change lies in one of the transactions.
pub proof fn law_selected_clock_edges_are_in_transactions(
    store: EdgeStore,
    config: QspiConfig,
    cs: int,
    clk: int,
    s: u64,
)
    requires
        store.wf(),
        store.sized(),
        config.channel_roles@.len() == store.num_channels,
        plays(config, QspiRole::Cs, cs),
        plays(config, QspiRole::Clk, clk),
        0 < s < store.total_samples,
        level_of(store, cs, s as int) == 0,
        level_of(store, clk, s as int) != level_of(store, clk, s - 1),
    ensures
        exists|i: int|
            0 <= i < qspi::found_transactions(store, config).len() && (
            #[trigger] qspi::found_transactions(store, config)[i]).start <= s
                < qspi::found_transactions(store, config)[i].end,
{
    law_low_samples_are_covered(store, config, cs, s);
    let txs = qspi::select_windows(store, config);
    let found = qspi::found_transactions(store, config);
    let i = choose|i: int| 0 <= i < txs.len() && (#[trigger] txs[i]).start <= s < txs[i].end;
    let tx = txs[i];
    assert(txs.contains(tx));
    law_windows_are_the_low_runs(store, config, cs, tx);
    law_transactions_are_clocked_low_runs(store, config, cs, clk, tx);
    assert(changes_within(store, clk, tx)) by {
        assert(level_of(store, clk, s as int) != level_of(store, clk, s - 1));
    }
    assert(found[found.index_of(tx)] == tx);
}

/// Without a clock or one of the data lines there are no packets and no timing.
pub proof fn law_no_packets_without_a_line(
    stats: qspi_stats::PacketStats,
    store: EdgeStore,
    config: QspiConfig,
    transactions: Seq<Transaction>,
    samplerate_hz: u64,
    exclude_timing_outliers: bool,
    role: QspiRole,
)
    requires
        qspi_stats::stats_of(
            stats,
            store,
            config,
            transactions,
            samplerate_hz,
            exclude_timing_outliers,
        ),
        role != QspiRole::Cs,
        !config.channel_roles@.contains(role),
    ensures
        stats.packets@.len() == 0,
        stats.timing is None,
{
    law_first_player_is_taken(config, role, 0);
}

/// Statistics group the packets that they hold, and time the transactions that
/// they are over.
pub proof fn law_statistics_are_over_the_transactions(
    stats: qspi_stats::PacketStats,
    store: EdgeStore,
    config: QspiConfig,
    transactions: Seq<Transaction>,
    samplerate_hz: u64,
    exclude_timing_outliers: bool,
)
    requires
        qspi_stats::stats_of(
            stats,
            store,
            config,
            transactions,
            samplerate_hz,
            exclude_timing_outliers,
        ),
        forall|role: QspiRole| role == QspiRole::Cs || config.channel_roles@.contains(role),
    ensures
        qspi_stats::groups_of(stats.groups.groups@, qspi_stats::packet_keys(stats.packets@)),
        qspi_stats::timing_of(stats.timing, transactions, samplerate_hz, exclude_timing_outliers),
{
    law_first_player_is_taken(config, QspiRole::Clk, 0);
    law_first_player_is_taken(config, QspiRole::D0, 0);
    law_first_player_is_taken(config, QspiRole::D1, 0);
    law_first_player_is_taken(config, QspiRole::D2, 0);
    law_first_player_is_taken(config, QspiRole::D3, 0);
}

} // verus!
