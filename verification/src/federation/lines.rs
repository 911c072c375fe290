//! The lines of a text.
use vstd::prelude::*;
use crate::text::starts_with;

verus! {

/// The first position of a line feed, or the length of `text`.
pub open spec fn line_feed(text: Seq<char>) -> nat
    decreases text.len(),
{
    if text.len() == 0 || text[0] == '\n' {
        0
    } else {
        1 + line_feed(text.skip(1))
    }
}

/// `line` without a carriage return at its end.
pub open spec fn without_return(line: Seq<char>) -> Seq<char> {
    if line.len() > 0 && line.last() == '\r' {
        line.drop_last()
    } else {
        line
    }
}

/// The lines of `text`, each without its ending: a line feed, or a carriage
/// return and a line feed. What follows the last ending is a line where it is
/// not empty.
pub open spec fn lines(text: Seq<char>) -> Seq<Seq<char>>
    decreases text.len(),
{
    if text.len() == 0 {
        Seq::empty()
    } else if line_feed(text) >= text.len() {
        seq![text]
    } else {
        seq![without_return(text.take(line_feed(text) as int))] + lines(
            text.skip(line_feed(text) as int + 1),
        )
    }
}

/// Where the first line feed stands.
pub proof fn lemma_line_feed(text: Seq<char>, k: nat)
    requires
        k <= text.len(),
        forall|i: int| 0 <= i < k ==> text[i] != '\n',
        k == text.len() || text[k as int] == '\n',
    ensures
        line_feed(text) == k,
    decreases k,
{
    if k > 0 {
        lemma_line_feed(text.skip(1), (k - 1) as nat);
    }
}

/// Where a line of a text starts and where it ends.
#[derive(Clone, Copy, Debug)]
pub struct Span {
    pub from: usize,
    pub to: usize,
}

/// What stands at `spans` of `text`.
pub open spec fn cut(text: Seq<char>, spans: Seq<Span>) -> Seq<Seq<char>> {
    Seq::new(spans.len(), |i: int| text.subrange(spans[i].from as int, spans[i].to as int))
}

/// Whether every span lies in `text`.
pub open spec fn spans_of(text: Seq<char>, spans: Seq<Span>) -> bool {
    forall|i: int|
        0 <= i < spans.len() ==> (#[trigger] spans[i]).from <= spans[i].to <= text.len()
}

fn characters(text: &str) -> (r: Vec<char>)
    ensures
        r@ == text@,
{
    let mut out: Vec<char> = Vec::new();
    for c in it: text.chars()
        invariant
            it.seq() == text@,
            out@ == text@.take(it.index()),
    {
        proof {
            assert(text@.take(it.index() + 1) =~= text@.take(it.index()).push(c));
        }
        out.push(c);
    }
    out
}

/// The lines of `text` start with one that ends at its first line feed.
proof fn lemma_one_line(text: Seq<char>, start: int, end: int)
    requires
        0 <= start <= end <= text.len(),
        start < text.len(),
        forall|k: int| start <= k < end ==> text[k] != '\n',
        end == text.len() || text[end] == '\n',
    ensures
        lines(text.skip(start)) == if end == text.len() {
            seq![text.subrange(start, end)]
        } else {
            seq![without_return(text.subrange(start, end))] + lines(text.skip(end + 1))
        },
{
    let rest = text.skip(start);
    lemma_line_feed(rest, (end - start) as nat);
    if end == text.len() {
        assert(rest =~= text.subrange(start, end));
    } else {
        assert(rest.take(end - start) =~= text.subrange(start, end));
        assert(rest.skip(end - start + 1) =~= text.skip(end + 1));
    }
}

/// Finds the lines of `text`.
pub fn line_spans(text: &str) -> (r: Vec<Span>)
    ensures
        spans_of(text@, r@),
        cut(text@, r@) == lines(text@),
{
    let chars: Vec<char> = characters(text);
    let mut out: Vec<Span> = Vec::new();
    let mut start: usize = 0;
    let mut i: usize = 0;
    proof {
        assert(text@.skip(0) =~= text@);
        assert(cut(text@, out@) + lines(text@) =~= lines(text@));
    }
    while i < chars.len()
        invariant
            start <= i <= chars.len(),
            chars@ == text@,
            spans_of(text@, out@),
            forall|k: int| start <= k < i ==> chars@[k] != '\n',
            cut(text@, out@) + lines(text@.skip(start as int)) == lines(text@),
        decreases chars.len() - i,
    {
        if chars[i] == '\n' {
            let ghost before = out@;
            let to: usize = if i > start && chars[i - 1] == '\r' {
                i - 1
            } else {
                i
            };
            out.push(Span { from: start, to });
            proof {
                lemma_one_line(text@, start as int, i as int);
                let line = text@.subrange(start as int, to as int);
                assert(without_return(text@.subrange(start as int, i as int)) =~= line);
                assert(cut(text@, out@) =~= cut(text@, before).push(line));
                assert(cut(text@, out@) + lines(text@.skip(i + 1)) =~= cut(text@, before) + (
                seq![line] + lines(text@.skip(i + 1))));
            }
            start = i + 1;
        }
        i = i + 1;
    }
    let ghost before = out@;
    if start < chars.len() {
        out.push(Span { from: start, to: chars.len() });
        proof {
            lemma_one_line(text@, start as int, i as int);
            assert(cut(text@, out@) =~= cut(text@, before) + seq![
                text@.subrange(start as int, i as int),
            ]);
        }
    } else {
        proof {
            assert(cut(text@, out@) =~= lines(text@));
        }
    }
    out
}

/// The last lines of a text, at most `count` of them.
pub open spec fn last_lines(text: Seq<char>, count: nat) -> Seq<Seq<char>> {
    let all = lines(text);
    if all.len() <= count {
        all
    } else {
        all.skip(all.len() - count)
    }
}

/// Each line behind two blanks, each ended by a line feed.
pub open spec fn indented(all: Seq<Seq<char>>) -> Seq<char>
    decreases all.len(),
{
    if all.len() == 0 {
        Seq::empty()
    } else {
        indented(all.drop_last()) + "  "@ + all.last() + "\n"@
    }
}

/// Indents the last lines of a text; none where there are none.
pub fn indent_last_lines(text: &str, count: usize) -> (r: Option<String>)
    ensures
        r is None <==> last_lines(text@, count as nat).len() == 0,
        r is Some ==> r->0@ == indented(last_lines(text@, count as nat)),
{
    let spans: Vec<Span> = line_spans(text);
    let first: usize = if spans.len() <= count {
        0
    } else {
        spans.len() - count
    };
    let ghost kept = last_lines(text@, count as nat);
    proof {
        assert(kept =~= lines(text@).skip(first as int));
    }
    if first == spans.len() {
        return None;
    }
    let mut out: String = String::new();
    let mut i: usize = first;
    proof {
        assert(kept.take(0) =~= Seq::<Seq<char>>::empty());
    }
    while i < spans.len()
        invariant
            first <= i <= spans.len(),
            spans_of(text@, spans@),
            cut(text@, spans@) == lines(text@),
            kept == lines(text@).skip(first as int),
            out@ == indented(kept.take(i - first)),
        decreases spans.len() - i,
    {
        proof {
            assert(kept.take(i + 1 - first).drop_last() =~= kept.take(i - first));
            assert(kept.take(i + 1 - first).last() == cut(text@, spans@)[i as int]);
        }
        out.append("  ");
        out.append(text.substring_char(spans[i].from, spans[i].to));
        out.append("\n");
        i = i + 1;
    }
    proof {
        assert(kept.take(spans.len() - first) =~= kept);
    }
    Some(out)
}

/// What follows `prefix` in the first line that starts with it.
pub open spec fn after_prefix(all: Seq<Seq<char>>, prefix: Seq<char>) -> Option<Seq<char>>
    decreases all.len(),
{
    if all.len() == 0 {
        None
    } else if prefix.is_prefix_of(all[0]) {
        Some(all[0].skip(prefix.len() as int))
    } else {
        after_prefix(all.skip(1), prefix)
    }
}

/// The value of `key` in a text of `key=value` lines, by its first line.
pub open spec fn value_of(text: Seq<char>, key: Seq<char>) -> Option<Seq<char>> {
    after_prefix(lines(text), key + "="@)
}

/// Finds the value of `key`.
pub fn find_value(text: &str, key: &str) -> (r: Option<String>)
    ensures
        r is Some <==> value_of(text@, key@) is Some,
        r is Some ==> r->0@ == value_of(text@, key@)->0,
{
    let mut prefix: String = key.to_owned();
    prefix.append("=");
    let spans: Vec<Span> = line_spans(text);
    let ghost all = lines(text@);
    let mut i: usize = 0;
    proof {
        assert(all.skip(0) =~= all);
    }
    while i < spans.len()
        invariant
            i <= spans.len(),
            spans_of(text@, spans@),
            all == lines(text@),
            cut(text@, spans@) == all,
            prefix@ == key@ + "="@,
            after_prefix(all.skip(i as int), prefix@) == value_of(text@, key@),
        decreases spans.len() - i,
    {
        let line: &str = text.substring_char(spans[i].from, spans[i].to);
        proof {
            assert(line@ == cut(text@, spans@)[i as int]);
            assert(all.skip(i as int)[0] == line@);
            assert(all.skip(i as int).skip(1) =~= all.skip(i + 1));
        }
        if starts_with(line, prefix.as_str()) {
            let skipped: usize = prefix.as_str().unicode_len();
            let whole: usize = line.unicode_len();
            proof {
                assert(line@.subrange(skipped as int, whole as int) =~= line@.skip(
                    prefix@.len() as int,
                ));
            }
            return Some(line.substring_char(skipped, whole).to_owned());
        }
        i = i + 1;
    }
    None
}

} // verus!
