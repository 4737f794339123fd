//! Reading the name of a process from the lines of its status file.

use vstd::prelude::*;
use vstd::string::*;

verus! {

/// The code points that count as white space: those with the Unicode
/// property `White_Space`.
pub open spec fn is_white_space(c: char) -> bool {
    let code = c as u32;
    ||| 0x09 <= code <= 0x0d
    ||| code == 0x20
    ||| code == 0x85
    ||| code == 0xa0
    ||| code == 0x1680
    ||| 0x2000 <= code <= 0x200a
    ||| code == 0x2028
    ||| code == 0x2029
    ||| code == 0x202f
    ||| code == 0x205f
    ||| code == 0x3000
}

/// `text` without the white space at its start.
pub open spec fn trim_start(text: Seq<char>) -> Seq<char>
    decreases text.len(),
{
    if text.len() > 0 && is_white_space(text.first()) {
        trim_start(text.drop_first())
    } else {
        text
    }
}

/// `text` without the white space at its end.
pub open spec fn trim_end(text: Seq<char>) -> Seq<char>
    decreases text.len(),
{
    if text.len() > 0 && is_white_space(text.last()) {
        trim_end(text.drop_last())
    } else {
        text
    }
}

/// `text` without the white space at its start and at its end.
pub open spec fn trimmed(text: Seq<char>) -> Seq<char> {
    trim_end(trim_start(text))
}

/// The label that the line with the name of the process begins with.
pub open spec fn name_label() -> Seq<char> {
    seq!['N', 'a', 'm', 'e', ':']
}

/// The name that a line of a status file gives, if it is the line of the
/// name: what follows the label, without the white space around it.
pub open spec fn name_in(line: Seq<char>) -> Option<Seq<char>> {
    if name_label().is_prefix_of(line) {
        Some(trimmed(line.skip(5)))
    } else {
        None
    }
}

fn white_space(c: char) -> (white: bool)
    ensures
        white == is_white_space(c),
{
    let code = c as u32;
    (0x09 <= code && code <= 0x0d) || code == 0x20 || code == 0x85 || code == 0xa0 || code
        == 0x1680 || (0x2000 <= code && code <= 0x200a) || code == 0x2028 || code == 0x2029 || code
        == 0x202f || code == 0x205f || code == 0x3000
}

proof fn lemma_trim_start_from(text: Seq<char>, from: int)
    requires
        0 <= from <= text.len(),
        forall|i: int| 0 <= i < from ==> is_white_space(#[trigger] text[i]),
    ensures
        trim_start(text) == trim_start(text.skip(from)),
    decreases from,
{
    if from > 0 {
        assert(text.drop_first().skip(from - 1) =~= text.skip(from));
        lemma_trim_start_from(text.drop_first(), from - 1);
    } else {
        assert(text.skip(0) =~= text);
    }
}

proof fn lemma_trim_end_to(text: Seq<char>, to: int)
    requires
        0 <= to <= text.len(),
        forall|i: int| to <= i < text.len() ==> is_white_space(#[trigger] text[i]),
    ensures
        trim_end(text) == trim_end(text.take(to)),
    decreases text.len() - to,
{
    if to < text.len() {
        assert(text.drop_last().take(to) =~= text.take(to));
        lemma_trim_end_to(text.drop_last(), to);
    } else {
        assert(text.take(to) =~= text);
    }
}

/// The name of the process, where `line` is the line of a status file that
/// gives it: what follows `Name:`, without the white space around it.
pub fn status_name(line: &str) -> (name: Option<String>)
    ensures
        match name {
            Some(text) => name_in(line@) == Some(text@),
            None => name_in(line@) is None,
        },
{
    let len = line.unicode_len();
    if len < 5 {
        return None;
    }
    if line.get_char(0) != 'N' || line.get_char(1) != 'a' || line.get_char(2) != 'm'
        || line.get_char(3) != 'e' || line.get_char(4) != ':' {
        return None;
    }
    proof {
        assert(line@.subrange(0, 5) =~= name_label());
    }
    let ghost rest = line@.skip(5);
    let mut from: usize = 5;
    while from < len && white_space(line.get_char(from))
        invariant
            5 <= from <= len,
            len == line@.len(),
            forall|i: int| 5 <= i < from ==> is_white_space(#[trigger] line@[i]),
        decreases len - from,
    {
        from += 1;
    }
    let mut to: usize = len;
    while to > from && white_space(line.get_char(to - 1))
        invariant
            from <= to <= len,
            len == line@.len(),
            forall|i: int| to <= i < len ==> is_white_space(#[trigger] line@[i]),
        decreases to,
    {
        to -= 1;
    }
    proof {
        let front = rest.skip(from - 5);
        assert forall|i: int| 0 <= i < from - 5 implies is_white_space(#[trigger] rest[i]) by {
            assert(rest[i] == line@[i + 5]);
        }
        lemma_trim_start_from(rest, from - 5);
        assert(front =~= line@.skip(from as int));
        assert(trim_start(front) == front);
        assert forall|i: int| to - from <= i < front.len() implies is_white_space(
            #[trigger] front[i],
        ) by {
            assert(front[i] == line@[i + from]);
        }
        lemma_trim_end_to(front, to - from);
        let kept = front.take(to - from);
        assert(kept =~= line@.subrange(from as int, to as int));
        assert(trim_end(kept) == kept);
    }
    Some(line.substring_char(from, to).to_owned())
}

} // verus!
