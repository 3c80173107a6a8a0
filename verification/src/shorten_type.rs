//! Short display names for the full names of systems.

use vstd::prelude::*;
use vstd::string::StringExecFns;
use vstd::string::StrSliceExecFns;

use crate::node::NodeId;
use crate::tables::{names_list, NameTable};

verus! {

/// Whether Unicode counts `c` as white space, as `char::is_whitespace` tells.
pub uninterp spec fn is_whitespace(c: char) -> bool;

/// `char::is_whitespace`: whether the character has the Unicode property
/// `White_Space`.
#[verifier::external_body]
fn char_is_whitespace(c: char) -> (r: bool)
    ensures
        r == is_whitespace(c),
{
    c.is_whitespace()
}

/// The characters of `s`.
pub fn chars_of(s: &str) -> (v: Vec<char>)
    ensures
        v@ == s@,
{
    broadcast use vstd::string::axiom_spec_iter;

    let mut v: Vec<char> = Vec::new();
    for c in it: s.chars()
        invariant
            it.seq() == s@,
            v@ == it.seq().take(it.index() as int),
    {
        v.push(c);
        assert(v@ =~= it.seq().take(it.index() + 1));
    }
    assert(v@ =~= s@);
    v
}

/// The end of the name of a closure: `::{{closure}}`.
pub open spec fn closure_suffix() -> Seq<char> {
    seq![':', ':', '{', '{', 'c', 'l', 'o', 's', 'u', 'r', 'e', '}', '}']
}

/// The first `end` characters of `s` end in the closure suffix.
pub open spec fn has_closure_suffix(s: Seq<char>, end: int) -> bool {
    end >= 13 && s.subrange(end - 13, end) == closure_suffix()
}

/// The length of what is left of the first `end` characters of `s` when
/// every closure suffix at their end is taken off.
pub open spec fn stripped_len(s: Seq<char>, end: int) -> int
    decreases end,
{
    if has_closure_suffix(s, end) {
        stripped_len(s, end - 13)
    } else {
        end
    }
}

/// The characters after which a section ends.
pub open spec fn is_delimiter(c: char) -> bool {
    c == '<' || c == '>' || c == '(' || c == ')' || c == '[' || c == ']' || c == ',' || c == ';'
}

/// The end of the section that starts at `from`: behind the first
/// delimiter from there on, or `end` where none follows.
pub open spec fn piece_end(s: Seq<char>, from: int, end: int) -> int
    decreases end - from,
{
    if from >= end {
        end
    } else if is_delimiter(s[from]) {
        from + 1
    } else {
        piece_end(s, from + 1, end)
    }
}

/// For each character of `s` whether it is white space.
pub open spec fn space_flags(s: Seq<char>) -> Seq<bool> {
    Seq::new(s.len(), |i: int| is_whitespace(s[i]))
}

/// The first place from `from` on, before `to`, that `space` does not mark
/// as white space; `to` where there is none.
pub open spec fn skip_space(space: Seq<bool>, from: int, to: int) -> int
    decreases to - from,
{
    if from < to && space[from] {
        skip_space(space, from + 1, to)
    } else {
        from
    }
}

/// The place behind the last character between `from` and `to` that
/// `space` does not mark as white space; `from` where there is none.
pub open spec fn drop_space(space: Seq<bool>, from: int, to: int) -> int
    decreases to - from,
{
    if from < to && space[to - 1] {
        drop_space(space, from, to - 1)
    } else {
        to
    }
}

/// The place of the first `::` from `from` on that ends before `to`; `to`
/// where there is none.
pub open spec fn block_end(s: Seq<char>, from: int, to: int) -> int
    decreases to - from,
{
    if from >= to {
        to
    } else if from + 1 < to && s[from] == ':' && s[from + 1] == ':' {
        from
    } else {
        block_end(s, from + 1, to)
    }
}

/// The blocks between `from` and `to`: what stands between one `::` and
/// the next.
pub open spec fn blocks_in(s: Seq<char>, from: int, to: int) -> Seq<Seq<char>>
    decreases to - from,
{
    let e = block_end(s, from, to);
    if from <= e && e + 2 <= to {
        seq![s.subrange(from, e)] + blocks_in(s, e + 2, to)
    } else {
        seq![s.subrange(from, to)]
    }
}

/// The sections from `from` on, up to `end`: each runs up to its
/// delimiter, loses what `space` marks as white space at its ends, and is
/// cut into blocks.
pub open spec fn sections_from(s: Seq<char>, space: Seq<bool>, from: int, end: int) -> Seq<
    Seq<Seq<char>>,
>
    decreases end - from,
{
    let e = piece_end(s, from, end);
    if from < e && e <= end {
        let a = skip_space(space, from, e);
        let b = drop_space(space, a, e);
        seq![blocks_in(s, a, b)] + sections_from(s, space, e, end)
    } else {
        Seq::empty()
    }
}

/// The sections of a name with the characters `s`, of which `space` marks
/// the white space, without the closure suffixes at its end.
pub open spec fn sections_with(s: Seq<char>, space: Seq<bool>) -> Seq<Seq<Seq<char>>> {
    sections_from(s, space, 0, stripped_len(s, s.len() as int))
}

/// The sections of the name `s`, without the closure suffixes at its end.
pub open spec fn sections_of(s: Seq<char>) -> Seq<Seq<Seq<char>>> {
    sections_with(s, space_flags(s))
}

/// The last block of each section, one after the other.
pub open spec fn shortest_of(sections: Seq<Seq<Seq<char>>>) -> Seq<char>
    decreases sections.len(),
{
    if sections.len() == 0 {
        Seq::empty()
    } else {
        shortest_of(sections.drop_last()) + sections.last().last()
    }
}

/// The views of the strings of a list.
pub open spec fn block_views(blocks: Seq<String>) -> Seq<Seq<char>> {
    Seq::new(blocks.len(), |i: int| blocks[i]@)
}

/// The views of the strings of a list of lists.
pub open spec fn section_views(sections: Seq<Vec<String>>) -> Seq<Seq<Seq<char>>> {
    Seq::new(sections.len(), |i: int| block_views(sections[i]@))
}

/// Whether the first `end` characters end in the closure suffix.
fn ends_in_closure(chars: &Vec<char>, end: usize) -> (r: bool)
    requires
        end <= chars@.len(),
    ensures
        r == has_closure_suffix(chars@, end as int),
{
    if end < 13 {
        return false;
    }
    let at = end - 13;
    let r = chars[at] == ':' && chars[at + 1] == ':' && chars[at + 2] == '{' && chars[at + 3] == '{'
        && chars[at + 4] == 'c' && chars[at + 5] == 'l' && chars[at + 6] == 'o' && chars[at + 7]
        == 's' && chars[at + 8] == 'u' && chars[at + 9] == 'r' && chars[at + 10] == 'e' && chars[at
        + 11] == '}' && chars[at + 12] == '}';
    proof {
        let tail = chars@.subrange(end - 13, end as int);
        let want = closure_suffix();
        if r {
            assert(tail =~= want);
        } else {
            if tail == want {
                assert(tail[0] == want[0] && tail[1] == want[1] && tail[2] == want[2] && tail[3]
                    == want[3] && tail[4] == want[4] && tail[5] == want[5] && tail[6] == want[6]
                    && tail[7] == want[7] && tail[8] == want[8] && tail[9] == want[9] && tail[10]
                    == want[10] && tail[11] == want[11] && tail[12] == want[12]);
            }
        }
    }
    r
}

/// Whether `c` ends a section.
fn is_delimiter_char(c: char) -> (r: bool)
    ensures
        r == is_delimiter(c),
{
    c == '<' || c == '>' || c == '(' || c == ')' || c == '[' || c == ']' || c == ',' || c == ';'
}

/// The end of the section that starts at `from`.
fn find_piece_end(chars: &Vec<char>, from: usize, end: usize) -> (e: usize)
    requires
        from < end <= chars@.len(),
    ensures
        e == piece_end(chars@, from as int, end as int),
        from < e <= end,
{
    let mut i = from;
    while i < end && !is_delimiter_char(chars[i])
        invariant
            from <= i <= end <= chars@.len(),
            piece_end(chars@, i as int, end as int) == piece_end(chars@, from as int, end as int),
        decreases end - i,
    {
        i += 1;
    }
    if i < end {
        i + 1
    } else {
        end
    }
}

/// For each character whether it is white space.
pub fn find_spaces(chars: &Vec<char>) -> (space: Vec<bool>)
    ensures
        space@ == space_flags(chars@),
{
    let mut space: Vec<bool> = Vec::new();
    let mut i: usize = 0;
    while i < chars.len()
        invariant
            i <= chars.len(),
            space@.len() == i,
            forall|k: int| 0 <= k < i ==> space@[k] == is_whitespace(chars@[k]),
        decreases chars.len() - i,
    {
        space.push(char_is_whitespace(chars[i]));
        i += 1;
    }
    proof {
        assert(space@ =~= space_flags(chars@));
    }
    space
}

/// The part between `from` and `to` without the white space at its ends.
fn trim_range(space: &Vec<bool>, from: usize, to: usize) -> (r: (usize, usize))
    requires
        from <= to <= space@.len(),
    ensures
        r.0 == skip_space(space@, from as int, to as int),
        r.1 == drop_space(space@, r.0 as int, to as int),
        from <= r.0 <= r.1 <= to,
{
    let mut a = from;
    while a < to && space[a]
        invariant
            from <= a <= to <= space@.len(),
            skip_space(space@, a as int, to as int) == skip_space(space@, from as int, to as int),
        decreases to - a,
    {
        a += 1;
    }
    let mut b = to;
    while a < b && space[b - 1]
        invariant
            a <= b <= to <= space@.len(),
            drop_space(space@, a as int, b as int) == drop_space(space@, a as int, to as int),
        decreases b - a,
    {
        b -= 1;
    }
    (a, b)
}

/// The place of the first `::` from `from` on that ends before `to`.
fn find_block_end(chars: &Vec<char>, from: usize, to: usize) -> (e: usize)
    requires
        from <= to <= chars@.len(),
    ensures
        e == block_end(chars@, from as int, to as int),
        from <= e <= to,
        e < to ==> e + 2 <= to,
{
    let mut i = from;
    while i < to && !(i + 1 < to && chars[i] == ':' && chars[i + 1] == ':')
        invariant
            from <= i <= to <= chars@.len(),
            block_end(chars@, i as int, to as int) == block_end(chars@, from as int, to as int),
        decreases to - i,
    {
        i += 1;
    }
    i
}

/// The blocks of `name` between `from` and `to`, as strings.
fn split_blocks(name: &str, chars: &Vec<char>, from: usize, to: usize) -> (blocks: Vec<String>)
    requires
        chars@ == name@,
        from <= to <= chars@.len(),
    ensures
        block_views(blocks@) == blocks_in(chars@, from as int, to as int),
        blocks@.len() > 0,
{
    let mut blocks: Vec<String> = Vec::new();
    let mut start = from;
    loop
        invariant
            chars@ == name@,
            from <= start <= to <= chars@.len(),
            block_views(blocks@) + blocks_in(chars@, start as int, to as int) == blocks_in(
                chars@,
                from as int,
                to as int,
            ),
        decreases to - start,
    {
        let e = find_block_end(chars, start, to);
        let ghost before = block_views(blocks@);
        if e < to {
            blocks.push(String::from_str(name.substring_char(start, e)));
            proof {
                assert(block_views(blocks@) =~= before.push(chars@.subrange(start as int, e as int)));
                assert(block_views(blocks@) + blocks_in(chars@, e + 2, to as int) =~= before
                    + blocks_in(chars@, start as int, to as int));
            }
            start = e + 2;
        } else {
            blocks.push(String::from_str(name.substring_char(start, to)));
            proof {
                assert(block_views(blocks@) =~= before.push(
                    chars@.subrange(start as int, to as int),
                ));
                assert(block_views(blocks@) =~= before + blocks_in(
                    chars@,
                    start as int,
                    to as int,
                ));
            }
            return blocks;
        }
    }
}

/// Cuts the name `name` into its sections and blocks. `chars` holds its
/// characters and `space` tells of each whether it is white space. A
/// closure suffix at the end of the name, also several, is left out.
pub fn split_sections(name: &str, chars: &Vec<char>, space: &Vec<bool>) -> (sections: Vec<
    Vec<String>,
>)
    requires
        chars@ == name@,
        space@.len() == chars@.len(),
    ensures
        section_views(sections@) == sections_with(chars@, space@),
        forall|i: int| 0 <= i < sections@.len() ==> (#[trigger] sections@[i])@.len() > 0,
{
    let mut end = chars.len();
    while ends_in_closure(chars, end)
        invariant
            end <= chars@.len(),
            stripped_len(chars@, end as int) == stripped_len(chars@, chars@.len() as int),
        decreases end,
    {
        end -= 13;
    }
    let mut sections: Vec<Vec<String>> = Vec::new();
    let mut from: usize = 0;
    while from < end
        invariant
            chars@ == name@,
            space@.len() == chars@.len(),
            from <= end <= chars@.len(),
            section_views(sections@) + sections_from(chars@, space@, from as int, end as int)
                == sections_from(chars@, space@, 0, end as int),
            forall|i: int| 0 <= i < sections@.len() ==> (#[trigger] sections@[i])@.len() > 0,
        decreases end - from,
    {
        let to = find_piece_end(chars, from, end);
        let (a, b) = trim_range(space, from, to);
        let blocks = split_blocks(name, chars, a, b);
        let ghost before = section_views(sections@);
        sections.push(blocks);
        proof {
            assert(section_views(sections@) =~= before.push(blocks_in(chars@, a as int, b as int)));
            assert(section_views(sections@) + sections_from(
                chars@,
                space@,
                to as int,
                end as int,
            ) =~= before + sections_from(chars@, space@, from as int, end as int));
        }
        from = to;
    }
    proof {
        assert(sections_from(chars@, space@, from as int, end as int) =~= Seq::empty());
        assert(section_views(sections@) =~= sections_from(chars@, space@, 0, end as int));
    }
    sections
}

/// The name of a function, cut into sections and blocks.
///
/// A section ends behind one of `< > ( ) [ ] , ;`. Inside a section,
/// without the white space at its ends, `::` parts the blocks.
#[derive(Debug)]
pub struct FunctionName {
    sections: Vec<Vec<String>>,
}

impl FunctionName {
    /// The sections of the name, each a list of blocks.
    pub closed spec fn sections(&self) -> Seq<Seq<Seq<char>>> {
        section_views(self.sections@)
    }

    /// Every section has a block.
    #[verifier::type_invariant]
    spec fn has_blocks(&self) -> bool {
        forall|i: int| 0 <= i < self.sections@.len() ==> (#[trigger] self.sections@[i])@.len() > 0
    }

    /// Cuts a full name into its sections and blocks. A closure suffix at
    /// the end of the name, also several, is left out.
    pub fn new(full_name: &str) -> (r: FunctionName)
        ensures
            r.sections() == sections_of(full_name@),
    {
        let chars = chars_of(full_name);
        let space = find_spaces(&chars);
        let sections = split_sections(full_name, &chars, &space);
        FunctionName { sections }
    }

    /// The short name: the last block of each section, one after the
    /// other.
    pub fn shortest(&self) -> (short_name: String)
        ensures
            short_name@ == shortest_of(self.sections()),
    {
        proof {
            use_type_invariant(self);
        }
        let mut short_name = String::new();
        let mut i: usize = 0;
        proof {
            assert(self.sections().take(0) =~= Seq::empty());
        }
        while i < self.sections.len()
            invariant
                i <= self.sections@.len(),
                forall|k: int|
                    0 <= k < self.sections@.len() ==> (#[trigger] self.sections@[k])@.len() > 0,
                short_name@ == shortest_of(self.sections().take(i as int)),
            decreases self.sections@.len() - i,
        {
            let sect = &self.sections[i];
            let last = &sect[sect.len() - 1];
            proof {
                let upto = self.sections().take(i + 1);
                assert(upto.drop_last() =~= self.sections().take(i as int));
                assert(upto.last() == block_views(sect@));
                assert(block_views(sect@).last() == last@);
            }
            short_name.append(last.as_str());
            i += 1;
        }
        proof {
            assert(self.sections().take(i as int) =~= self.sections());
        }
        short_name
    }
}

/// The blocks of `blocks` with `::` between each and the next.
pub open spec fn joined(blocks: Seq<Seq<char>>) -> Seq<char>
    decreases blocks.len(),
{
    if blocks.len() == 0 {
        Seq::empty()
    } else if blocks.len() == 1 {
        blocks[0]
    } else {
        joined(blocks.drop_last()) + seq![':', ':'] + blocks.last()
    }
}

/// Where two names stand while their sections are compared: the blocks
/// that both had in common last, and the two short names so far.
pub struct PairNames {
    /// The blocks that the two sections share, as collected so far.
    pub block: Seq<Seq<char>>,
    /// The short name of the first function so far.
    pub first: Seq<char>,
    /// The short name of the second function so far.
    pub second: Seq<char>,
}

/// One pair of blocks: equal blocks are collected; of unequal blocks each
/// goes to its name, followed by `::` and the collected blocks, turned
/// round and joined.
pub open spec fn pair_step(state: PairNames, block1: Seq<char>, block2: Seq<char>) -> PairNames {
    if block1 == block2 {
        PairNames { block: state.block.push(block1), first: state.first, second: state.second }
    } else {
        let turned = state.block.reverse();
        let part = seq![':', ':'] + joined(turned);
        PairNames {
            block: turned,
            first: state.first + block1 + part,
            second: state.second + block2 + part,
        }
    }
}

/// The names after the last `k` blocks of two sections were compared pair
/// by pair, from the last block on.
pub open spec fn pair_blocks(
    sect1: Seq<Seq<char>>,
    sect2: Seq<Seq<char>>,
    k: int,
    first: Seq<char>,
    second: Seq<char>,
) -> PairNames
    decreases k,
{
    if k <= 0 {
        PairNames { block: Seq::empty(), first, second }
    } else {
        pair_step(
            pair_blocks(sect1, sect2, k - 1, first, second),
            sect1[sect1.len() - k],
            sect2[sect2.len() - k],
        )
    }
}

/// The smaller of two numbers.
pub open spec fn smaller(a: int, b: int) -> int {
    if a <= b {
        a
    } else {
        b
    }
}

/// `s` with a space behind it where it ends in a comma.
pub open spec fn with_space(s: Seq<char>) -> Seq<char> {
    if s.len() > 0 && s.last() == ',' {
        s.push(' ')
    } else {
        s
    }
}

/// The two names after one more pair of sections: equal sections give
/// their last block to both names; unequal ones are compared block by
/// block.
pub open spec fn pair_section(
    first: Seq<char>,
    second: Seq<char>,
    sect1: Seq<Seq<char>>,
    sect2: Seq<Seq<char>>,
) -> (Seq<char>, Seq<char>) {
    if sect1 != sect2 {
        let state = pair_blocks(
            sect1,
            sect2,
            smaller(sect1.len() as int, sect2.len() as int),
            first,
            second,
        );
        (with_space(state.first), with_space(state.second))
    } else {
        (with_space(first + sect1.last()), with_space(second + sect2.last()))
    }
}

/// The two names after the first `k` pairs of sections.
pub open spec fn pair_names(
    sections1: Seq<Seq<Seq<char>>>,
    sections2: Seq<Seq<Seq<char>>>,
    k: int,
) -> (Seq<char>, Seq<char>)
    decreases k,
{
    if k <= 0 {
        (Seq::empty(), Seq::empty())
    } else {
        let before = pair_names(sections1, sections2, k - 1);
        pair_section(before.0, before.1, sections1[k - 1], sections2[k - 1])
    }
}

/// Whether two lists hold the same blocks.
fn same_blocks(a: &Vec<String>, b: &Vec<String>) -> (r: bool)
    ensures
        r == (block_views(a@) == block_views(b@)),
{
    if a.len() != b.len() {
        proof {
            assert(block_views(a@).len() != block_views(b@).len());
        }
        return false;
    }
    let mut i: usize = 0;
    while i < a.len()
        invariant
            i <= a.len(),
            a.len() == b.len(),
            forall|k: int| 0 <= k < i ==> a@[k]@ == b@[k]@,
        decreases a.len() - i,
    {
        if a[i] != b[i] {
            proof {
                assert(block_views(a@)[i as int] != block_views(b@)[i as int]);
            }
            return false;
        }
        i += 1;
    }
    proof {
        assert(block_views(a@) =~= block_views(b@));
    }
    true
}

/// The blocks of `blocks` from the last to the first.
fn turned_blocks(blocks: &Vec<String>) -> (r: Vec<String>)
    ensures
        block_views(r@) == block_views(blocks@).reverse(),
{
    let mut r: Vec<String> = Vec::new();
    let n = blocks.len();
    let mut i: usize = 0;
    while i < n
        invariant
            i <= n,
            n == blocks.len(),
            r.len() == i,
            forall|k: int| 0 <= k < i ==> r@[k]@ == blocks@[n - 1 - k]@,
        decreases n - i,
    {
        r.push(blocks[n - 1 - i].clone());
        i += 1;
    }
    proof {
        assert(block_views(r@) =~= block_views(blocks@).reverse());
    }
    r
}

/// The blocks of `blocks` with `::` between each and the next.
fn join_blocks(blocks: &Vec<String>) -> (r: String)
    ensures
        r@ == joined(block_views(blocks@)),
{
    let mut r = String::new();
    let mut i: usize = 0;
    proof {
        reveal_strlit("::");
        assert(block_views(blocks@).take(0) =~= Seq::empty());
    }
    while i < blocks.len()
        invariant
            i <= blocks.len(),
            "::"@ == seq![':', ':'],
            r@ == joined(block_views(blocks@).take(i as int)),
        decreases blocks.len() - i,
    {
        proof {
            let upto = block_views(blocks@).take(i + 1);
            assert(upto.drop_last() =~= block_views(blocks@).take(i as int));
            assert(upto.last() == blocks@[i as int]@);
            if i == 0 {
                assert(upto[0] == blocks@[0]@);
            }
        }
        if i > 0 {
            r.append("::");
        }
        r.append(blocks[i].as_str());
        proof {
            if i == 0 {
                assert(r@ =~= blocks@[0]@);
            }
        }
        i += 1;
    }
    proof {
        assert(block_views(blocks@).take(i as int) =~= block_views(blocks@));
    }
    r
}

/// Puts a space behind a name that ends in a comma.
fn space_after_comma(name: &mut String)
    ensures
        final(name)@ == with_space(old(name)@),
{
    let n = name.as_str().unicode_len();
    if n > 0 && name.as_str().get_char(n - 1) == ',' {
        proof {
            reveal_strlit(" ");
            assert(" "@ =~= seq![' ']);
        }
        name.append(" ");
        proof {
            assert(name@ =~= old(name)@.push(' '));
        }
    }
}

/// Short names for two functions that tell them apart, section by section
/// as far as both have sections. Equal sections give their last block to
/// both names. Of unequal sections the blocks are compared from the last
/// on: equal blocks are collected, and unequal blocks go to the names,
/// each followed by `::` and the collected blocks. A name that ends in a
/// comma gets a space behind it.
pub fn shorten_pair(func1: FunctionName, func2: FunctionName) -> (names: (String, String))
    ensures
        names.0@ == pair_names(
            func1.sections(),
            func2.sections(),
            smaller(func1.sections().len() as int, func2.sections().len() as int),
        ).0,
        names.1@ == pair_names(
            func1.sections(),
            func2.sections(),
            smaller(func1.sections().len() as int, func2.sections().len() as int),
        ).1,
{
    proof {
        use_type_invariant(&func1);
        use_type_invariant(&func2);
        reveal_strlit("::");
    }
    let ghost sections1 = func1.sections();
    let ghost sections2 = func2.sections();
    let mut func1name = String::new();
    let mut func2name = String::new();
    let count = if func1.sections.len() <= func2.sections.len() {
        func1.sections.len()
    } else {
        func2.sections.len()
    };
    let mut i: usize = 0;
    while i < count
        invariant
            i <= count,
            count == smaller(sections1.len() as int, sections2.len() as int),
            sections1 == func1.sections(),
            sections2 == func2.sections(),
            "::"@ == seq![':', ':'],
            forall|k: int|
                0 <= k < func1.sections@.len() ==> (#[trigger] func1.sections@[k])@.len() > 0,
            forall|k: int|
                0 <= k < func2.sections@.len() ==> (#[trigger] func2.sections@[k])@.len() > 0,
            func1name@ == pair_names(sections1, sections2, i as int).0,
            func2name@ == pair_names(sections1, sections2, i as int).1,
        decreases count - i,
    {
        let sect1 = &func1.sections[i];
        let sect2 = &func2.sections[i];
        let ghost first0 = func1name@;
        let ghost second0 = func2name@;
        let ghost blocks1 = block_views(sect1@);
        let ghost blocks2 = block_views(sect2@);
        proof {
            assert(sections1[i as int] == blocks1);
            assert(sections2[i as int] == blocks2);
        }
        if !same_blocks(sect1, sect2) {
            let mut block: Vec<String> = Vec::new();
            let pairs = if sect1.len() <= sect2.len() {
                sect1.len()
            } else {
                sect2.len()
            };
            let mut j: usize = 0;
            proof {
                assert(block_views(block@) =~= Seq::empty());
            }
            while j < pairs
                invariant
                    j <= pairs,
                    pairs == smaller(blocks1.len() as int, blocks2.len() as int),
                    blocks1 == block_views(sect1@),
                    blocks2 == block_views(sect2@),
                    "::"@ == seq![':', ':'],
                    pair_blocks(blocks1, blocks2, j as int, first0, second0).block == block_views(
                        block@,
                    ),
                    pair_blocks(blocks1, blocks2, j as int, first0, second0).first == func1name@,
                    pair_blocks(blocks1, blocks2, j as int, first0, second0).second == func2name@,
                decreases pairs - j,
            {
                let block1 = &sect1[sect1.len() - 1 - j];
                let block2 = &sect2[sect2.len() - 1 - j];
                let ghost state = pair_blocks(blocks1, blocks2, j as int, first0, second0);
                proof {
                    assert(blocks1[blocks1.len() - (j + 1)] == block1@);
                    assert(blocks2[blocks2.len() - (j + 1)] == block2@);
                }
                if *block1 == *block2 {
                    let ghost before = block_views(block@);
                    block.push(block1.clone());
                    proof {
                        assert(block_views(block@) =~= before.push(block1@));
                        assert(pair_blocks(blocks1, blocks2, j + 1, first0, second0) == pair_step(
                            state,
                            block1@,
                            block2@,
                        ));
                    }
                } else {
                    block = turned_blocks(&block);
                    let tail = join_blocks(&block);
                    func1name.append(block1.as_str());
                    func1name.append("::");
                    func1name.append(tail.as_str());
                    func2name.append(block2.as_str());
                    func2name.append("::");
                    func2name.append(tail.as_str());
                    proof {
                        let part = seq![':', ':'] + joined(state.block.reverse());
                        assert(func1name@ =~= state.first + block1@ + part);
                        assert(func2name@ =~= state.second + block2@ + part);
                        assert(pair_blocks(blocks1, blocks2, j + 1, first0, second0) == pair_step(
                            state,
                            block1@,
                            block2@,
                        ));
                    }
                }
                j += 1;
            }
        } else {
            func1name.append(sect1[sect1.len() - 1].as_str());
            func2name.append(sect2[sect2.len() - 1].as_str());
            proof {
                assert(blocks1.last() == sect1@[sect1@.len() - 1]@);
                assert(blocks2.last() == sect2@[sect2@.len() - 1]@);
            }
        }
        space_after_comma(&mut func1name);
        space_after_comma(&mut func2name);
        i += 1;
    }
    (func1name, func2name)
}

/// The short name of each system of `systems`.
pub fn shorten_systems(systems: &NameTable) -> (short: NameTable)
    ensures
        short.entries().dom() == systems.entries().dom(),
        forall|n: NodeId|
            systems.entries().dom().contains(n) ==> #[trigger] short.entries()[n] == shortest_of(
                sections_of(systems.entries()[n]),
            ),
{
    let list = names_list(systems);
    let mut short = NameTable::new();
    let mut i: usize = 0;
    while i < list.len()
        invariant
            i <= list.len(),
            forall|k: int|
                0 <= k < list@.len() ==> systems.entries().dom().contains((#[trigger] list@[k]).0)
                    && systems.entries()[list@[k].0] == list@[k].1@,
            forall|n: NodeId|
                systems.entries().dom().contains(n) ==> exists|k: int|
                    0 <= k < list@.len() && (#[trigger] list@[k]).0 == n,
            forall|n: NodeId|
                short.entries().dom().contains(n) <==> exists|k: int|
                    0 <= k < i && (#[trigger] list@[k]).0 == n,
            forall|n: NodeId|
                short.entries().dom().contains(n) ==> #[trigger] short.entries()[n] == shortest_of(
                    sections_of(systems.entries()[n]),
                ),
        decreases list.len() - i,
    {
        let name = FunctionName::new(list[i].1.as_str());
        let ghost before = short.entries();
        short.insert(list[i].0, name.shortest());
        proof {
            let node = list@[i as int].0;
            assert forall|n: NodeId|
                short.entries().dom().contains(n) <==> exists|k: int|
                    0 <= k < i + 1 && (#[trigger] list@[k]).0 == n by {
                if short.entries().dom().contains(n) {
                    if n == node {
                        assert(0 <= i < i + 1 && list@[i as int].0 == n);
                    } else {
                        assert(before.dom().contains(n));
                        let k = choose|k: int| 0 <= k < i && (#[trigger] list@[k]).0 == n;
                        assert(0 <= k < i + 1 && list@[k].0 == n);
                    }
                }
                if exists|k: int| 0 <= k < i + 1 && (#[trigger] list@[k]).0 == n {
                    let k = choose|k: int| 0 <= k < i + 1 && (#[trigger] list@[k]).0 == n;
                    if k < i {
                        assert(before.dom().contains(n));
                    }
                }
            }
        }
        i += 1;
    }
    proof {
        assert forall|n: NodeId|
            short.entries().dom().contains(n) <==> systems.entries().dom().contains(n) by {
            if short.entries().dom().contains(n) {
                let k = choose|k: int| 0 <= k < i && (#[trigger] list@[k]).0 == n;
                assert(systems.entries().dom().contains(list@[k].0));
            }
            if systems.entries().dom().contains(n) {
                let k = choose|k: int| 0 <= k < list@.len() && (#[trigger] list@[k]).0 == n;
                assert(0 <= k < i && list@[k].0 == n);
            }
        }
        assert(short.entries().dom() =~= systems.entries().dom());
    }
    short
}

} // verus!
