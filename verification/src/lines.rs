//! What the lines of a header say, one by one.

use vstd::prelude::*;

use crate::parser;
use crate::parser::HeaderModel;
use crate::samplerate;
use crate::text;

verus! {

/// Whether a text stays on one line.
pub open spec fn one_line(s: Seq<char>) -> bool {
    forall|i: int| 0 <= i < s.len() ==> #[trigger] s[i] != '\n'
}

/// Whether a text is white space within a line.
pub open spec fn blank(s: Seq<char>) -> bool {
    text::all_space(s) && one_line(s)
}

/// A line with white space before and after its key.
pub open spec fn field_line(
    pre: Seq<char>,
    key: Seq<char>,
    mid: Seq<char>,
    value: Seq<char>,
) -> Seq<char> {
    pre + key + mid + seq!['='] + value
}

/// Number that a value spells between white space. What spells none, or one
/// beyond `max`, counts as zero.
pub open spec fn spelled(value: Seq<char>, max: nat) -> nat {
    match text::unsigned_of(text::trimmed(value)) {
        Some(n) => if n <= max {
            n
        } else {
            0
        },
        None => 0,
    }
}

/// A line at the end of a text is read last.
proof fn lemma_last_line(a: Seq<char>, line: Seq<char>)
    requires
        one_line(line),
    ensures
        parser::header_of(a + seq!['\n'] + line) == parser::with_line(parser::header_of(a), line),
        parser::header_of(line) == parser::with_line(parser::empty_header(), line),
{
    parser::law_header_grows_line_by_line(a, line);
    lemma_only_line(parser::header_of(a), line);
    lemma_only_line(parser::empty_header(), line);
}

/// A text of one line is read as that line.
proof fn lemma_only_line(h: HeaderModel, line: Seq<char>)
    requires
        one_line(line),
    ensures
        parser::with_lines(h, line, 0) == parser::with_line(h, line),
{
    if line.len() == 0 {
        assert(line =~= Seq::<char>::empty());
        assert(text::trimmed(line) =~= Seq::<char>::empty());
    } else {
        text::lemma_find_from(line, '\n', 0);
        let end = text::find_from(line, '\n', 0);
        assert(end == line.len());
        assert(line.subrange(0, end) =~= line);
        assert(parser::with_lines(parser::with_line(h, line), line, end + 1) == parser::with_line(
            h,
            line,
        ));
    }
}

/// What trimming leaves of a text does not change when white space behind the
/// text is taken away first.
proof fn lemma_trim_absorbs(value: Seq<char>, post: Seq<char>, kept: Seq<char>)
    requires
        text::all_space(post),
        value == kept + post,
    ensures
        text::trimmed(kept) == text::trimmed(value),
{
    let (a, b) = text::lemma_trim_parts(kept);
    let core = text::trimmed(kept);
    let tail = b + post;
    assert forall|i: int| 0 <= i < tail.len() implies text::is_space(#[trigger] tail[i]) by {
        if i < b.len() {
            assert(tail[i] == b[i]);
        } else {
            assert(tail[i] == post[i - b.len()]);
        }
    }
    assert(value =~= a + core + tail);
    text::law_trim_takes_the_white_space(a, core, tail);
}

/// A key and a value on a line are read as such.
proof fn lemma_field_line(
    h: HeaderModel,
    pre: Seq<char>,
    key: Seq<char>,
    mid: Seq<char>,
    value: Seq<char>,
)
    requires
        text::all_space(pre),
        text::all_space(mid),
        key.len() > 0,
        !text::is_space(key.first()),
        !text::is_space(key.last()),
        key.first() != '[',
        forall|i: int| 0 <= i < key.len() ==> #[trigger] key[i] != '=',
    ensures
        parser::with_line(h, field_line(pre, key, mid, value)) == parser::with_field(
            h,
            key,
            text::trimmed(value),
        ),
{
    let line = field_line(pre, key, mid, value);
    let (va, vb) = text::lemma_trim_parts(value);
    let kept = va + text::trimmed(value);
    let none = Seq::<char>::empty();
    let front = key + mid;
    let eq = seq!['='];
    // The white space behind the value goes, or all of a value that is blank.
    let (left, post) = if text::trimmed(value).len() == 0 {
        (none, value)
    } else {
        (kept, vb)
    };
    assert(value =~= left + post);
    assert(text::all_space(post)) by {
        if text::trimmed(value).len() == 0 {
            assert forall|i: int| 0 <= i < post.len() implies text::is_space(
                #[trigger] post[i],
            ) by {
                if i < va.len() {
                    assert(post[i] == va[i]);
                } else {
                    assert(post[i] == vb[i - va.len()]);
                }
            }
        }
    }
    let core = front + eq + left;
    assert(line =~= pre + core + post);
    assert(core.first() == key.first());
    assert(core.last() == if left.len() > 0 {
        left.last()
    } else {
        '='
    });
    text::law_trim_takes_the_white_space(pre, core, post);
    assert forall|k: int| 0 <= k < front.len() implies front[k] != '=' by {
        if k < key.len() {
            assert(front[k] == key[k]);
        } else {
            assert(front[k] == mid[k - key.len()]);
            assert(text::is_space(mid[k - key.len()]));
        }
    }
    assert(core =~= front + (eq + left));
    text::lemma_find_from_concat(front, eq + left, '=', 0);
    assert((eq + left)[0] == '=');
    assert(core.take(front.len() as int) =~= none + key + mid);
    text::law_trim_takes_the_white_space(none, key, mid);
    assert(core.skip(front.len() as int + 1) =~= left);
    lemma_trim_absorbs(value, post, left);
}

/// Parts that stay on one line make one line.
proof fn lemma_field_on_one_line(
    pre: Seq<char>,
    key: Seq<char>,
    mid: Seq<char>,
    value: Seq<char>,
)
    requires
        one_line(pre),
        one_line(key),
        one_line(mid),
        one_line(value),
    ensures
        one_line(field_line(pre, key, mid, value)),
{
    let line = field_line(pre, key, mid, value);
    assert forall|i: int| 0 <= i < line.len() implies #[trigger] line[i] != '\n' by {
        let b = pre.len() as int;
        let c = b + key.len();
        let d = c + mid.len();
        if i < b {
            assert(line[i] == pre[i]);
        } else if i < c {
            assert(line[i] == key[i - b]);
        } else if i < d {
            assert(line[i] == mid[i - c]);
        } else if i > d {
            assert(line[i] == value[i - d - 1]);
        }
    }
}

/// A field at the end of a text changes what was read before it.
proof fn lemma_field_is_read(
    a: Seq<char>,
    pre: Seq<char>,
    key: Seq<char>,
    mid: Seq<char>,
    value: Seq<char>,
)
    requires
        blank(pre),
        blank(mid),
        one_line(key),
        one_line(value),
        key.len() > 0,
        !text::is_space(key.first()),
        !text::is_space(key.last()),
        key.first() != '[',
        forall|i: int| 0 <= i < key.len() ==> #[trigger] key[i] != '=',
    ensures
        parser::header_of(a + seq!['\n'] + field_line(pre, key, mid, value)) == parser::with_field(
            parser::header_of(a),
            key,
            text::trimmed(value),
        ),
{
    lemma_field_on_one_line(pre, key, mid, value);
    lemma_last_line(a, field_line(pre, key, mid, value));
    lemma_field_line(parser::header_of(a), pre, key, mid, value);
}

/// The first line of a text is read as one that follows an empty line.
pub proof fn law_first_line_is_like_any_other(line: Seq<char>)
    requires
        one_line(line),
    ensures
        parser::header_of(line) == parser::header_of(Seq::empty() + seq!['\n'] + line),
{
    lemma_last_line(Seq::empty(), line);
    assert(parser::header_of(Seq::empty()) == parser::empty_header());
}

/// A text without lines says nothing.
pub proof fn law_no_lines_say_nothing()
    ensures
        parser::header_of(Seq::empty()) == (HeaderModel {
            version: 0,
            driver: Seq::empty(),
            device_mode: 0,
            total_samples: 0,
            total_probes: 0,
            total_blocks: 0,
            samplerate_hz: 0,
            trigger_time: 0,
            trigger_pos: 0,
            probes: Seq::empty(),
        }),
{
}

/// Every probe is listed, whatever its number and however many there are: the
/// line of a probe puts its number and its name behind those that are there,
/// and changes nothing else.
pub proof fn law_every_probe_is_listed(
    a: Seq<char>,
    pre: Seq<char>,
    n: u32,
    mid: Seq<char>,
    name: Seq<char>,
)
    requires
        blank(pre),
        blank(mid),
        one_line(name),
    ensures
        parser::header_of(
            a + seq!['\n'] + field_line(pre, "probe"@ + text::decimal(n as nat), mid, name),
        ) == (HeaderModel {
            probes: parser::header_of(a).probes.push((n, text::trimmed(name))),
            ..parser::header_of(a)
        }),
{
    let digits = text::decimal(n as nat);
    let key = "probe"@ + digits;
    text::law_decimal_reads_back(n as nat);
    lemma_key_letters();
    assert forall|i: int| 0 <= i < key.len() implies {
        &&& #[trigger] key[i] != '='
        &&& key[i] != '\n'
        &&& !text::is_space(key[i])
    } by {
        if i >= 5 {
            assert(key[i] == digits[i - 5]);
            assert(text::is_digit(digits[i - 5]));
        } else {
            assert(key[i] == "probe"@[i]);
        }
    }
    assert(key.first() == key[0] && key.last() == key[key.len() - 1]);
    lemma_field_is_read(a, pre, key, mid, name);
    assert(key[0] == 'p');
    assert(key.take(5) =~= "probe"@);
    assert(key.skip(5) =~= digits);
    assert(text::is_digit(digits[0]));
    assert(!text::starts_with(digits, "probe"@)) by {
        if text::starts_with(digits, "probe"@) {
            assert(digits.take(5)[0] == digits[0]);
        }
    }
    assert(parser::probe_number(digits) == digits);
    assert(parser::probe_number(key) == digits);
}

/// The letters of the keys.
proof fn lemma_key_letters()
    ensures
        "version"@ =~= seq!['v', 'e', 'r', 's', 'i', 'o', 'n'],
        "driver"@ =~= seq!['d', 'r', 'i', 'v', 'e', 'r'],
        "device mode"@ =~= seq!['d', 'e', 'v', 'i', 'c', 'e', ' ', 'm', 'o', 'd', 'e'],
        "total samples"@ =~= seq![
            't',
            'o',
            't',
            'a',
            'l',
            ' ',
            's',
            'a',
            'm',
            'p',
            'l',
            'e',
            's',
        ],
        "total probes"@ =~= seq!['t', 'o', 't', 'a', 'l', ' ', 'p', 'r', 'o', 'b', 'e', 's'],
        "total blocks"@ =~= seq!['t', 'o', 't', 'a', 'l', ' ', 'b', 'l', 'o', 'c', 'k', 's'],
        "samplerate"@ =~= seq!['s', 'a', 'm', 'p', 'l', 'e', 'r', 'a', 't', 'e'],
        "trigger time"@ =~= seq!['t', 'r', 'i', 'g', 'g', 'e', 'r', ' ', 't', 'i', 'm', 'e'],
        "trigger pos"@ =~= seq!['t', 'r', 'i', 'g', 'g', 'e', 'r', ' ', 'p', 'o', 's'],
        "probe"@ =~= seq!['p', 'r', 'o', 'b', 'e'],
{
    reveal_strlit("version");
    reveal_strlit("driver");
    reveal_strlit("device mode");
    reveal_strlit("total samples");
    reveal_strlit("total probes");
    reveal_strlit("total blocks");
    reveal_strlit("samplerate");
    reveal_strlit("trigger time");
    reveal_strlit("trigger pos");
    reveal_strlit("probe");
}

/// A line sets the field that its key names, to the number or the text that its
/// value spells, and changes nothing else, whatever was read before.
pub proof fn law_fields_are_read(a: Seq<char>, pre: Seq<char>, mid: Seq<char>, value: Seq<char>)
    requires
        blank(pre),
        blank(mid),
        one_line(value),
    ensures
        parser::header_of(a + seq!['\n'] + field_line(pre, "version"@, mid, value)) == (
        HeaderModel { version: spelled(value, 0xFFFF_FFFF) as u32, ..parser::header_of(a) }),
        parser::header_of(a + seq!['\n'] + field_line(pre, "driver"@, mid, value)) == (
        HeaderModel { driver: text::trimmed(value), ..parser::header_of(a) }),
        parser::header_of(a + seq!['\n'] + field_line(pre, "device mode"@, mid, value)) == (
        HeaderModel { device_mode: spelled(value, 0xFFFF_FFFF) as u32, ..parser::header_of(a) }),
        parser::header_of(a + seq!['\n'] + field_line(pre, "total samples"@, mid, value)) == (
        HeaderModel {
            total_samples: spelled(value, 0xFFFF_FFFF_FFFF_FFFF) as u64,
            ..parser::header_of(a)
        }),
        parser::header_of(a + seq!['\n'] + field_line(pre, "total probes"@, mid, value)) == (
        HeaderModel { total_probes: spelled(value, 0xFFFF_FFFF) as u32, ..parser::header_of(a) }),
        parser::header_of(a + seq!['\n'] + field_line(pre, "total blocks"@, mid, value)) == (
        HeaderModel { total_blocks: spelled(value, 0xFFFF_FFFF) as u32, ..parser::header_of(a) }),
        parser::header_of(a + seq!['\n'] + field_line(pre, "samplerate"@, mid, value)) == (
        HeaderModel {
            samplerate_hz: samplerate::samplerate_of(text::trimmed(value)),
            ..parser::header_of(a)
        }),
        parser::header_of(a + seq!['\n'] + field_line(pre, "trigger time"@, mid, value)) == (
        HeaderModel {
            trigger_time: spelled(value, 0xFFFF_FFFF_FFFF_FFFF) as u64,
            ..parser::header_of(a)
        }),
        parser::header_of(a + seq!['\n'] + field_line(pre, "trigger pos"@, mid, value)) == (
        HeaderModel {
            trigger_pos: spelled(value, 0xFFFF_FFFF_FFFF_FFFF) as u64,
            ..parser::header_of(a)
        }),
{
    lemma_key_letters();
    lemma_field_is_read(a, pre, "version"@, mid, value);
    lemma_field_is_read(a, pre, "driver"@, mid, value);
    lemma_field_is_read(a, pre, "device mode"@, mid, value);
    lemma_field_is_read(a, pre, "total samples"@, mid, value);
    lemma_field_is_read(a, pre, "total probes"@, mid, value);
    lemma_field_is_read(a, pre, "total blocks"@, mid, value);
    lemma_field_is_read(a, pre, "samplerate"@, mid, value);
    lemma_field_is_read(a, pre, "trigger time"@, mid, value);
    lemma_field_is_read(a, pre, "trigger pos"@, mid, value);
    lemma_keys_differ();
}

/// No two keys are the same.
proof fn lemma_keys_differ()
    ensures
        "driver"@ != "version"@,
        "device mode"@ != "version"@,
        "device mode"@ != "driver"@,
        "total samples"@ != "version"@,
        "total samples"@ != "driver"@,
        "total samples"@ != "device mode"@,
        "total probes"@ != "version"@,
        "total probes"@ != "driver"@,
        "total probes"@ != "device mode"@,
        "total probes"@ != "total samples"@,
        "total blocks"@ != "version"@,
        "total blocks"@ != "driver"@,
        "total blocks"@ != "device mode"@,
        "total blocks"@ != "total samples"@,
        "total blocks"@ != "total probes"@,
        "samplerate"@ != "version"@,
        "samplerate"@ != "driver"@,
        "samplerate"@ != "device mode"@,
        "samplerate"@ != "total samples"@,
        "samplerate"@ != "total probes"@,
        "samplerate"@ != "total blocks"@,
        "trigger time"@ != "version"@,
        "trigger time"@ != "driver"@,
        "trigger time"@ != "device mode"@,
        "trigger time"@ != "total samples"@,
        "trigger time"@ != "total probes"@,
        "trigger time"@ != "total blocks"@,
        "trigger time"@ != "samplerate"@,
        "trigger pos"@ != "version"@,
        "trigger pos"@ != "driver"@,
        "trigger pos"@ != "device mode"@,
        "trigger pos"@ != "total samples"@,
        "trigger pos"@ != "total probes"@,
        "trigger pos"@ != "total blocks"@,
        "trigger pos"@ != "samplerate"@,
        "trigger pos"@ != "trigger time"@,
{
    lemma_key_letters();
    assert("total probes"@[6] == 'p' && "total blocks"@[6] == 'b' && "trigger time"@[6] == 'r');
    assert("device mode"@[0] == 'd' && "trigger pos"@[0] == 't');
}

/// A line that is blank, opens a section or has no equals sign is passed over.
pub proof fn law_other_lines_are_passed_over(a: Seq<char>, line: Seq<char>)
    requires
        one_line(line),
        text::trimmed(line).len() == 0 || text::trimmed(line)[0] == '[' || forall|i: int|
            0 <= i < line.len() ==> #[trigger] line[i] != '=',
    ensures
        parser::header_of(a + seq!['\n'] + line) == parser::header_of(a),
{
    lemma_last_line(a, line);
    let (pre, post) = text::lemma_trim_parts(line);
    let core = text::trimmed(line);
    text::lemma_find_from(core, '=', 0);
    let eq = text::find_from(core, '=', 0);
    if eq < core.len() {
        assert(line[pre.len() + eq] == core[eq]);
    }
}

/// A line whose key is none of the known ones is passed over, and so is one of
/// a probe without a number.
pub proof fn law_unknown_keys_are_passed_over(
    a: Seq<char>,
    pre: Seq<char>,
    key: Seq<char>,
    mid: Seq<char>,
    value: Seq<char>,
    rest: Seq<char>,
)
    requires
        blank(pre),
        blank(mid),
        one_line(key),
        one_line(value),
        key.len() > 0,
        !text::is_space(key.first()),
        !text::is_space(key.last()),
        key.first() != '[',
        forall|i: int| 0 <= i < key.len() ==> #[trigger] key[i] != '=',
        key != "version"@,
        key != "driver"@,
        key != "device mode"@,
        key != "total samples"@,
        key != "total probes"@,
        key != "total blocks"@,
        key != "samplerate"@,
        key != "trigger time"@,
        key != "trigger pos"@,
        !text::starts_with(key, "probe"@) || (key == "probe"@ + rest && !text::starts_with(
            rest,
            "probe"@,
        ) && (text::unsigned_of(rest) matches Some(n) ==> n > 0xFFFF_FFFF)),
    ensures
        parser::header_of(a + seq!['\n'] + field_line(pre, key, mid, value)) == parser::header_of(
            a,
        ),
{
    lemma_field_is_read(a, pre, key, mid, value);
    lemma_key_letters();
    if text::starts_with(key, "probe"@) {
        assert(key.skip(5) =~= rest);
        assert(parser::probe_number(rest) == rest);
        assert(parser::probe_number(key) == rest);
    }
}

} // verus!
