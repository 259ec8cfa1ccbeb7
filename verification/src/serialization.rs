//! The text form of a bucket: one line per stored vector, by ascending id.

use vstd::prelude::*;
use crate::inverted_index::{
    entries_of, is_listing, lemma_entries_of_listing, listing, AvlWrapper,
};
use crate::primitive_types::{
    entry_from_text, entry_text, lemma_entry_round_trip, lemma_entry_text_free, parse_entry,
    push_entry, IVListEntry, ParseError,
};
use crate::text::{
    chars_of, decimal, free_of, lemma_decimal, lemma_digits_free, lemma_split_first,
    lemma_split_last, lemma_split_none, number_up_to, parse_number,
    push_decimal, slice_of, split, split_fields, string_of, texts, without,
};

verus! {

/// One stored vector as a line: its id, a colon and a blank, its entry, and
/// the end of the line.
pub open spec fn line_text(pair: (u32, IVListEntry)) -> Seq<char> {
    decimal(pair.0 as nat) + seq![':', ' '] + entry_text(pair.1) + seq!['\n']
}

/// The lines of the stored vectors, one after the other.
pub open spec fn lines_text(pairs: Seq<(u32, IVListEntry)>) -> Seq<char>
    decreases pairs.len(),
{
    if pairs.len() == 0 {
        Seq::empty()
    } else {
        lines_text(pairs.drop_last()) + line_text(pairs.last())
    }
}

/// A bucket as text: the lines of its vectors within curly brackets.
pub open spec fn map_text(pairs: Seq<(u32, IVListEntry)>) -> Seq<char> {
    seq!['{'] + lines_text(pairs) + seq!['}']
}

/// The stored vector that a line spells: an id that 32 bits hold, a `:`, and
/// an entry.
pub open spec fn line_from_text(line: Seq<char>) -> Result<(u32, IVListEntry), ParseError> {
    let fields = split(line, ':');
    if fields.len() != 2 {
        Err(ParseError::Line)
    } else if number_up_to(fields[0], u32::MAX as nat) is None {
        Err(ParseError::Key)
    } else {
        match entry_from_text(fields[1]) {
            Ok(entry) => Ok((number_up_to(fields[0], u32::MAX as nat)->Some_0 as u32, entry)),
            Err(e) => Err(e),
        }
    }
}

/// The stored vectors that the lines spell, or what is wrong with the first
/// line that spells none.
pub open spec fn lines_from_text(lines: Seq<Seq<char>>) -> Result<
    Seq<(u32, IVListEntry)>,
    ParseError,
>
    decreases lines.len(),
{
    if lines.len() == 0 {
        Ok(Seq::empty())
    } else {
        match lines_from_text(lines.drop_last()) {
            Err(e) => Err(e),
            Ok(front) => match line_from_text(lines.last()) {
                Err(e) => Err(e),
                Ok(pair) => Ok(front.push(pair)),
            },
        }
    }
}

/// The stored vectors that a text spells, in the order of the text: nothing
/// for `{}`; else the lines between `{` and `}`, each ended by a line feed.
pub open spec fn map_from_text(s: Seq<char>) -> Result<Seq<(u32, IVListEntry)>, ParseError> {
    if s.len() < 2 || s.first() != '{' || s.last() != '}' {
        Err(ParseError::Frame)
    } else {
        let body = s.subrange(1, s.len() - 1);
        if body.len() == 0 {
            Ok(Seq::empty())
        } else if body.last() != '\n' {
            Err(ParseError::Frame)
        } else {
            lines_from_text(split(body.drop_last(), '\n'))
        }
    }
}

/// The stored vector that a line spells.
fn parse_line(line: &Vec<char>) -> (r: Result<(u32, IVListEntry), ParseError>)
    ensures
        r == line_from_text(line@),
{
    let splitted = split_fields(line, ':');
    if splitted.len() != 2 {
        return Err(ParseError::Line);
    }
    assert(split(line@, ':')[0] == splitted[0]@);
    assert(split(line@, ':')[1] == splitted[1]@);
    let key = match parse_number(&splitted[0], u32::MAX) {
        Some(key) => key,
        None => {
            return Err(ParseError::Key);
        },
    };
    match parse_entry(&splitted[1]) {
        Ok(entry) => Ok((key, entry)),
        Err(e) => Err(e),
    }
}

/// The text of a bucket.
pub fn to_json(source: &AvlWrapper) -> (text: String)
    ensures
        text@ == map_text(listing(source@)),
        is_listing(listing(source@), source@),
{
    let pairs = source.entries();
    let mut out: Vec<char> = Vec::new();
    out.push('{');
    let mut i: usize = 0;
    proof {
        assert(pairs@.subrange(0, 0) =~= Seq::<(u32, IVListEntry)>::empty());
    }
    while i < pairs.len()
        invariant
            i <= pairs.len(),
            out@ == seq!['{'] + lines_text(pairs@.subrange(0, i as int)),
        decreases pairs.len() - i,
    {
        let ghost before = out@;
        proof {
            assert(pairs@.subrange(0, i + 1).drop_last() =~= pairs@.subrange(0, i as int));
            assert(pairs@.subrange(0, i + 1).last() == pairs[i as int]);
        }
        push_decimal(&mut out, pairs[i].0);
        out.push(':');
        out.push(' ');
        push_entry(&mut out, &pairs[i].1);
        out.push('\n');
        proof {
            assert(out@ =~= before + line_text(pairs[i as int]));
        }
        i += 1;
    }
    proof {
        assert(pairs@.subrange(0, pairs.len() as int) =~= pairs@);
    }
    out.push('}');
    assert(out@ =~= map_text(pairs@));
    string_of(&out)
}

/// The bucket that a text spells.
pub fn from_json(source: &str) -> (r: Result<AvlWrapper, ParseError>)
    ensures
        map_from_text(source@) is Ok ==> r is Ok && r->Ok_0@ == entries_of(
            map_from_text(source@)->Ok_0,
        ),
        map_from_text(source@) is Err ==> r is Err && r->Err_0 == map_from_text(source@)->Err_0,
{
    let s = chars_of(source);
    let n = s.len();
    if n < 2 || s[0] != '{' || s[n - 1] != '}' {
        return Err(ParseError::Frame);
    }
    let mut avl = AvlWrapper::new();
    if n == 2 {
        assert(s@.subrange(1, n - 1).len() == 0);
        return Ok(avl);
    }
    if s[n - 2] != '\n' {
        assert(s@.subrange(1, n - 1).last() == s[n - 2]);
        return Err(ParseError::Frame);
    }
    let body = slice_of(&s, 1, n - 2);
    proof {
        assert(s@.subrange(1, n - 1).last() == s[n - 2]);
        assert(body@ =~= s@.subrange(1, n - 1).drop_last());
    }
    let splitted = split_fields(&body, '\n');
    let ghost lines = split(body@, '\n');
    let ghost mut pairs: Seq<(u32, IVListEntry)> = Seq::empty();
    let mut i: usize = 0;
    proof {
        assert(lines.subrange(0, 0) =~= Seq::<Seq<char>>::empty());
    }
    while i < splitted.len()
        invariant
            i <= splitted.len(),
            texts(splitted@) == lines,
            lines_from_text(lines.subrange(0, i as int)) == Ok::<
                Seq<(u32, IVListEntry)>,
                ParseError,
            >(pairs),
            avl@ == entries_of(pairs),
            map_from_text(source@) == lines_from_text(lines),
        decreases splitted.len() - i,
    {
        proof {
            assert(lines.subrange(0, i + 1).drop_last() =~= lines.subrange(0, i as int));
            assert(lines.subrange(0, i + 1).last() == splitted[i as int]@);
        }
        match parse_line(&splitted[i]) {
            Ok(pair) => {
                avl.insert(pair.0, Box::new(pair.1));
                proof {
                    pairs = pairs.push(pair);
                    assert(pairs.drop_last() =~= lines_from_text(lines.subrange(0, i as int))->Ok_0);
                }
            },
            Err(e) => {
                proof {
                    lemma_lines_fail(lines, i + 1);
                }
                return Err(e);
            },
        }
        i += 1;
    }
    proof {
        assert(lines.subrange(0, lines.len() as int) =~= lines);
    }
    Ok(avl)
}

/// Lines that begin with lines that spell no bucket spell none, for the same
/// reason.
proof fn lemma_lines_fail(lines: Seq<Seq<char>>, n: int)
    requires
        0 <= n <= lines.len(),
        lines_from_text(lines.subrange(0, n)) is Err,
    ensures
        lines_from_text(lines) == lines_from_text(lines.subrange(0, n)),
    decreases lines.len(),
{
    if n < lines.len() {
        let front = lines.drop_last();
        assert(front.subrange(0, n) =~= lines.subrange(0, n));
        lemma_lines_fail(front, n);
    } else {
        assert(lines.subrange(0, n) =~= lines);
    }
}

/// One stored vector as a line, without the end of the line.
pub open spec fn line_body(pair: (u32, IVListEntry)) -> Seq<char> {
    decimal(pair.0 as nat) + seq![':', ' '] + entry_text(pair.1)
}

/// The lines of the stored vectors, with a line feed between each two.
pub open spec fn lines_joined(pairs: Seq<(u32, IVListEntry)>) -> Seq<char>
    decreases pairs.len(),
{
    if pairs.len() == 0 {
        Seq::empty()
    } else if pairs.len() == 1 {
        line_body(pairs[0])
    } else {
        lines_joined(pairs.drop_last()) + seq!['\n'] + line_body(pairs.last())
    }
}

proof fn lemma_line_body_free(pair: (u32, IVListEntry))
    ensures
        free_of(line_body(pair), '\n'),
{
    lemma_decimal(pair.0 as nat);
    lemma_digits_free(decimal(pair.0 as nat), '\n');
    lemma_entry_text_free(pair.1, '\n');
}

/// A stored vector is the one that its line spells.
pub proof fn lemma_line_round_trip(pair: (u32, IVListEntry))
    ensures
        line_from_text(line_body(pair)) == Ok::<(u32, IVListEntry), ParseError>(pair),
{
    let key = decimal(pair.0 as nat);
    let rest = seq![' '] + entry_text(pair.1);
    lemma_decimal(pair.0 as nat);
    lemma_digits_free(key, ':');
    lemma_entry_text_free(pair.1, ':');
    assert(free_of(rest, ':')) by {
        assert forall|i: int| 0 <= i < rest.len() implies #[trigger] rest[i] != ':' by {
            if i > 0 {
                assert(rest[i] == entry_text(pair.1)[i - 1]);
            }
        }
    }
    assert(line_body(pair) =~= key + seq![':'] + rest);
    lemma_split_first(key, rest, ':');
    lemma_split_none(rest, ':');
    assert(split(line_body(pair), ':') =~= seq![key, rest]);
    let blank = seq![' '];
    assert(without(blank, ' ').len() == 0) by {
        let none = blank.drop_last();
        assert(none.len() == 0);
        assert(without(none, ' ') == none);
        assert(blank.last() == ' ');
        assert(without(blank, ' ') == without(none, ' '));
    }
    assert(free_of(blank, ';'));
    lemma_entry_round_trip(pair.1, blank);
}

proof fn lemma_lines_joined(pairs: Seq<(u32, IVListEntry)>)
    requires
        pairs.len() >= 1,
    ensures
        lines_text(pairs) == lines_joined(pairs) + seq!['\n'],
        split(lines_joined(pairs), '\n') == Seq::new(pairs.len(), |i: int| line_body(pairs[i])),
    decreases pairs.len(),
{
    let lines = Seq::new(pairs.len(), |i: int| line_body(pairs[i]));
    lemma_line_body_free(pairs.last());
    if pairs.len() == 1 {
        assert(pairs.drop_last().len() == 0);
        assert(lines_text(pairs.drop_last()) =~= Seq::<char>::empty());
        assert(lines_text(pairs) =~= lines_joined(pairs) + seq!['\n']);
        lemma_split_none(line_body(pairs[0]), '\n');
        assert(seq![line_body(pairs[0])] =~= lines);
    } else {
        let front = pairs.drop_last();
        lemma_lines_joined(front);
        assert(lines_text(pairs) =~= lines_joined(pairs) + seq!['\n']);
        lemma_split_last(lines_joined(front), line_body(pairs.last()), '\n');
        assert(split(lines_joined(front), '\n').push(line_body(pairs.last())) =~= lines);
    }
}

proof fn lemma_lines_round_trip(pairs: Seq<(u32, IVListEntry)>)
    ensures
        lines_from_text(Seq::new(pairs.len(), |i: int| line_body(pairs[i]))) == Ok::<
            Seq<(u32, IVListEntry)>,
            ParseError,
        >(pairs),
    decreases pairs.len(),
{
    let lines = Seq::new(pairs.len(), |i: int| line_body(pairs[i]));
    if pairs.len() == 0 {
        assert(pairs =~= Seq::empty());
    } else {
        let front = pairs.drop_last();
        lemma_lines_round_trip(front);
        assert(lines.drop_last() =~= Seq::new(front.len(), |i: int| line_body(front[i])));
        lemma_line_round_trip(pairs.last());
        assert(front.push(pairs.last()) =~= pairs);
    }
}

/// Reading the text of a bucket gives back what the bucket holds: the same
/// vectors in the same order, and so the same bucket.
pub proof fn lemma_bucket_round_trip(
    pairs: Seq<(u32, IVListEntry)>,
    entries: Map<u32, IVListEntry>,
)
    requires
        is_listing(pairs, entries),
    ensures
        map_from_text(map_text(pairs)) == Ok::<Seq<(u32, IVListEntry)>, ParseError>(pairs),
        entries_of(pairs) == entries,
{
    let s = map_text(pairs);
    let body = s.subrange(1, s.len() - 1);
    assert(body =~= lines_text(pairs));
    if pairs.len() == 0 {
        assert(pairs =~= Seq::empty());
    } else {
        lemma_lines_joined(pairs);
        assert(body.drop_last() =~= lines_joined(pairs));
        lemma_lines_round_trip(pairs);
    }
    lemma_entries_of_listing(pairs, entries);
}

} // verus!
