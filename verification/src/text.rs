//! The lines of a text, and the white space around them.

use vstd::prelude::*;

verus! {

/// Whether `c` has the Unicode property `White_Space`.
pub open spec fn white_space(c: char) -> bool {
    ||| '\u{9}' <= c <= '\u{d}'
    ||| c == ' '
    ||| c == '\u{85}'
    ||| c == '\u{a0}'
    ||| c == '\u{1680}'
    ||| '\u{2000}' <= c <= '\u{200a}'
    ||| c == '\u{2028}'
    ||| c == '\u{2029}'
    ||| c == '\u{202f}'
    ||| c == '\u{205f}'
    ||| c == '\u{3000}'
}

/// Whether nothing but white space stands in `s`.
pub open spec fn blank(s: Seq<char>) -> bool {
    forall|i: int| 0 <= i < s.len() ==> white_space(#[trigger] s[i])
}

/// `s` without the characters of a kind that it starts with.
pub open spec fn stripped_start(s: Seq<char>, kind: spec_fn(char) -> bool) -> Seq<char>
    decreases s.len(),
{
    if s.len() > 0 && kind(s.first()) {
        stripped_start(s.drop_first(), kind)
    } else {
        s
    }
}

/// `s` without the characters of a kind that it ends in.
pub open spec fn stripped_end(s: Seq<char>, kind: spec_fn(char) -> bool) -> Seq<char>
    decreases s.len(),
{
    if s.len() > 0 && kind(s.last()) {
        stripped_end(s.drop_last(), kind)
    } else {
        s
    }
}

/// `s` without the characters of a kind around it.
pub open spec fn stripped(s: Seq<char>, kind: spec_fn(char) -> bool) -> Seq<char> {
    stripped_end(stripped_start(s, kind), kind)
}

/// `s` without the white space around it.
pub open spec fn trimmed(s: Seq<char>) -> Seq<char> {
    stripped(s, |c: char| white_space(c))
}

/// How many characters of `s` stand before its first line feed, or all of them
/// where it has none.
pub open spec fn line_end(s: Seq<char>) -> nat
    decreases s.len(),
{
    if s.len() == 0 || s.first() == '\n' {
        0
    } else {
        1 + line_end(s.drop_first())
    }
}

/// `line` without the carriage return that belongs to its line ending.
pub open spec fn without_carriage_return(line: Seq<char>) -> Seq<char> {
    if line.len() > 0 && line.last() == '\r' {
        line.drop_last()
    } else {
        line
    }
}

/// The lines of `s`. A line ends in a line feed, or in a carriage return and a
/// line feed; what follows the last line ending is a line too, unless it is
/// empty.
pub open spec fn text_lines(s: Seq<char>) -> Seq<Seq<char>>
    decreases s.len(),
{
    if s.len() == 0 {
        seq![]
    } else if line_end(s) < s.len() {
        seq![without_carriage_return(s.take(line_end(s) as int))] + text_lines(
            s.skip(line_end(s) as int + 1),
        )
    } else {
        seq![s]
    }
}

/// What a sequence of string slices says.
pub open spec fn contents(lines: Seq<&str>) -> Seq<Seq<char>> {
    lines.map_values(|line: &str| line@)
}

/// The lines of `s` that are not blank, as they stand.
pub open spec fn non_blank_text_lines(s: Seq<char>) -> Seq<Seq<char>> {
    text_lines(s).filter(|line: Seq<char>| !blank(line))
}

/// The lines of `s` that are not blank, each without the white space around it.
pub open spec fn records(s: Seq<char>) -> Seq<Seq<char>> {
    non_blank_text_lines(s).map_values(|line: Seq<char>| trimmed(line))
}

/// `str::trim`: removes the characters with the property `White_Space` from
/// both ends, and no others.
pub assume_specification[ str::trim ](s: &str) -> (trimmed_slice: &str)
    ensures
        trimmed_slice@ == trimmed(s@),
;

/// `str::lines`, collected: the lines of the text in order, without their line
/// endings. A carriage return that no line feed follows ends no line and stays.
#[verifier::external_body]
fn lines<'a>(text: &'a str) -> (slices: Vec<&'a str>)
    ensures
        contents(slices@) == text_lines(text@),
{
    text.lines().collect()
}

/// Nothing is left of a text without the white space around it exactly where
/// the text is blank.
pub proof fn trimmed_empty_iff_blank(s: Seq<char>)
    ensures
        trimmed(s).len() == 0 <==> blank(s),
{
    let kind = |c: char| white_space(c);
    let rest = stripped_start(s, kind);
    lemma_stripped_start(s, kind);
    lemma_stripped_end(rest, kind);
    if blank(s) {
        assert forall|i: int| 0 <= i < s.len() implies kind(#[trigger] s[i]) by {}
    }
    if trimmed(s).len() == 0 {
        assert(rest.len() > 0 ==> kind(rest[0]));
        assert forall|i: int| 0 <= i < s.len() implies white_space(#[trigger] s[i]) by {
            assert(kind(s[i]));
        }
    }
}

proof fn lemma_stripped_start(s: Seq<char>, kind: spec_fn(char) -> bool)
    ensures
        stripped_start(s, kind).len() == 0 <==> forall|i: int|
            0 <= i < s.len() ==> kind(#[trigger] s[i]),
        stripped_start(s, kind).len() > 0 ==> !kind(stripped_start(s, kind)[0]),
    decreases s.len(),
{
    if s.len() > 0 && kind(s.first()) {
        let rest = s.drop_first();
        lemma_stripped_start(rest, kind);
        if forall|i: int| 0 <= i < rest.len() ==> kind(#[trigger] rest[i]) {
            assert forall|i: int| 0 <= i < s.len() implies kind(#[trigger] s[i]) by {
                if i > 0 {
                    assert(kind(rest[i - 1]));
                }
            }
        }
        if forall|i: int| 0 <= i < s.len() ==> kind(#[trigger] s[i]) {
            assert forall|i: int| 0 <= i < rest.len() implies kind(#[trigger] rest[i]) by {
                assert(kind(s[i + 1]));
            }
        }
    }
}

proof fn lemma_stripped_end(s: Seq<char>, kind: spec_fn(char) -> bool)
    ensures
        stripped_end(s, kind).len() == 0 <==> forall|i: int|
            0 <= i < s.len() ==> kind(#[trigger] s[i]),
    decreases s.len(),
{
    if s.len() > 0 && kind(s.last()) {
        let rest = s.drop_last();
        lemma_stripped_end(rest, kind);
        if forall|i: int| 0 <= i < rest.len() ==> kind(#[trigger] rest[i]) {
            assert forall|i: int| 0 <= i < s.len() implies kind(#[trigger] s[i]) by {
                if i < rest.len() {
                    assert(kind(rest[i]));
                }
            }
        }
        if forall|i: int| 0 <= i < s.len() ==> kind(#[trigger] s[i]) {
            assert forall|i: int| 0 <= i < rest.len() implies kind(#[trigger] rest[i]) by {
                assert(kind(s[i]));
            }
        }
    }
}

/// Whether nothing but white space stands in `text`.
pub fn is_blank(text: &str) -> (answer: bool)
    ensures
        answer == blank(text@),
{
    proof {
        trimmed_empty_iff_blank(text@);
    }
    text.trim().is_empty()
}

/// The lines of `text` that are not blank, as they stand.
pub fn non_blank_lines<'a>(text: &'a str) -> (kept: Vec<&'a str>)
    ensures
        contents(kept@) == non_blank_text_lines(text@),
{
    let all: Vec<&'a str> = lines(text);
    let ghost everything = contents(all@);
    let ghost inked = |line: Seq<char>| !blank(line);
    let mut kept: Vec<&'a str> = Vec::new();
    let mut i: usize = 0;
    while i < all.len()
        invariant
            i <= all.len(),
            everything == contents(all@),
            inked == (|line: Seq<char>| !blank(line)),
            contents(kept@) == everything.take(i as int).filter(inked),
        decreases all.len() - i,
    {
        let line: &'a str = all[i];
        proof {
            let before = everything.take(i as int);
            assert(everything.take(i + 1) =~= before.push(line@));
            before.lemma_filter_push(line@, inked);
        }
        let ghost kept_before = kept@;
        if !is_blank(line) {
            kept.push(line);
            assert(contents(kept@) =~= contents(kept_before).push(line@));
        }
        i = i + 1;
    }
    assert(everything.take(i as int) =~= everything);
    kept
}

/// Whether `places` are places in a sequence of length `len`, each after the one
/// before.
pub open spec fn increasing_places(places: Seq<int>, len: int) -> bool {
    &&& forall|k: int| 0 <= k < places.len() ==> 0 <= #[trigger] places[k] < len
    &&& forall|j: int, k: int|
        0 <= j < k < places.len() ==> #[trigger] places[j] < #[trigger] places[k]
}

pub(crate) proof fn lemma_filter_places<A>(s: Seq<A>, pred: spec_fn(A) -> bool) -> (places: Seq<
    int,
>)
    ensures
        increasing_places(places, s.len() as int),
        places.len() == s.filter(pred).len(),
        forall|k: int|
            0 <= k < places.len() ==> s.filter(pred)[k] == s[#[trigger] places[k]] && pred(
                s[places[k]],
            ),
        forall|i: int|
            #[trigger] places.contains(i) <==> 0 <= i < s.len() && pred(s[i]),
    decreases s.len(),
{
    if s.len() == 0 {
        assert(s.filter(pred) =~= seq![]) by {
            s.lemma_all_neg_filter_empty(pred);
        }
        seq![]
    } else {
        let front = s.drop_last();
        let places = lemma_filter_places(front, pred);
        let n = s.len() - 1;
        assert(s =~= front.push(s.last()));
        front.lemma_filter_push(s.last(), pred);
        if pred(s.last()) {
            let all = places.push(n);
            assert forall|i: int| #[trigger] all.contains(i) <==> 0 <= i < s.len() && pred(
                s[i],
            ) by {
                if i == n {
                    assert(all[places.len() as int] == n);
                } else if places.contains(i) {
                    let k = choose|k: int| 0 <= k < places.len() && places[k] == i;
                    assert(all[k] == i);
                } else if all.contains(i) {
                    let k = choose|k: int| 0 <= k < all.len() && all[k] == i;
                    assert(places[k] == i);
                }
            }
            all
        } else {
            assert forall|i: int| #[trigger] places.contains(i) <==> 0 <= i < s.len() && pred(
                s[i],
            ) by {}
            places
        }
    }
}

/// The lines that are not blank are those of which something is left without the
/// white space around them: every one of them, as it stands, and in its place.
pub proof fn blank_lines_are_left_out(s: Seq<char>)
    ensures
        exists|places: Seq<int>|
            {
                &&& #[trigger] increasing_places(places, text_lines(s).len() as int)
                &&& places.len() == non_blank_text_lines(s).len()
                &&& forall|k: int|
                    0 <= k < places.len() ==> non_blank_text_lines(s)[k] == text_lines(
                        s,
                    )[#[trigger] places[k]]
                &&& forall|i: int| #[trigger]
                    places.contains(i) <==> 0 <= i < text_lines(s).len() && trimmed(
                        text_lines(s)[i],
                    ).len() > 0
            },
{
    let lines = text_lines(s);
    let places = lemma_filter_places(lines, |line: Seq<char>| !blank(line));
    assert forall|i: int| #[trigger] places.contains(i) <==> 0 <= i < lines.len() && trimmed(
        lines[i],
    ).len() > 0 by {
        trimmed_empty_iff_blank(lines[i]);
    }
}

} // verus!
