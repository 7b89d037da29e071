//! What holds of every well-formed atlas text: reading it succeeds, and gives
//! one record per sprite group, in the order of the text.

use crate::atlas::{
    block_spec, blocks_from, blocks_of, group_count, group_lines, group_spec, groups_from,
    parse_spec, slash,
};
use crate::bytes::{lines_spec, matches_at, pieces, split_spec};
use crate::distribute::{excluded_path, move_spec, no_separator, plain_names};
use crate::record::SpriteRecordView;
use vstd::prelude::*;

verus! {

/// Every group of the block describes a sprite, and the block names a sheet.
pub open spec fn block_well_formed(block: Seq<u8>) -> bool {
    let ls = lines_spec(block);
    ls.len() > 0 && forall|g: int|
        0 <= g < group_count(ls.len() as int) ==> (#[trigger] group_spec(
            ls[0],
            group_lines(ls, g),
        )) is Ok
}

/// Every block of the text is well formed.
pub open spec fn well_formed(input: Seq<u8>) -> bool {
    let blocks = blocks_of(input);
    forall|b: int| 0 <= b < blocks.len() ==> block_well_formed(#[trigger] blocks[b])
}

/// The number of sprite groups in block `b`.
pub open spec fn groups_in(blocks: Seq<Seq<u8>>, b: int) -> int {
    group_count(lines_spec(blocks[b]).len() as int)
}

/// The number of sprite groups in the blocks before block `b`.
pub open spec fn groups_before(blocks: Seq<Seq<u8>>, b: int) -> int
    decreases b,
{
    if b <= 0 {
        0
    } else {
        groups_before(blocks, b - 1) + groups_in(blocks, b - 1)
    }
}

/// The record that group `g` of block `b` describes.
pub open spec fn record_at(blocks: Seq<Seq<u8>>, b: int, g: int) -> SpriteRecordView {
    let ls = lines_spec(blocks[b]);
    group_spec(ls[0], group_lines(ls, g)).unwrap()
}

/// The groups before a block are never more than those before a later one.
pub proof fn lemma_groups_before_grows(blocks: Seq<Seq<u8>>, a: int, c: int)
    requires
        0 <= a <= c,
    ensures
        0 <= groups_before(blocks, a) <= groups_before(blocks, c),
    decreases c,
{
    if c > 0 {
        if a < c {
            lemma_groups_before_grows(blocks, a, c - 1);
        } else {
            lemma_groups_before_grows(blocks, a - 1, c - 1);
        }
    }
}

/// Within a block whose groups all describe a sprite, the groups from `g` on
/// are read into one record each, in order.
pub proof fn lemma_groups_read_in_order(ls: Seq<Seq<u8>>, b: int, g: int)
    requires
        0 <= g <= group_count(ls.len() as int),
        forall|k: int|
            0 <= k < group_count(ls.len() as int) ==> (#[trigger] group_spec(
                ls[0],
                group_lines(ls, k),
            )) is Ok,
    ensures
        groups_from(ls, b, g) is Ok,
        groups_from(ls, b, g).unwrap().len() == group_count(ls.len() as int) - g,
        forall|k: int|
            g <= k < group_count(ls.len() as int) ==> (#[trigger] groups_from(ls, b, g).unwrap()[k
                - g]) == group_spec(ls[0], group_lines(ls, k)).unwrap(),
    decreases group_count(ls.len() as int) - g,
{
    if g < group_count(ls.len() as int) {
        lemma_groups_read_in_order(ls, b, g + 1);
        let r = group_spec(ls[0], group_lines(ls, g));
        assert(r is Ok);
        let rest = groups_from(ls, b, g + 1).unwrap();
        let all = groups_from(ls, b, g).unwrap();
        assert(all == seq![r.unwrap()] + rest);
        assert forall|k: int| g <= k < group_count(ls.len() as int) implies (#[trigger] all[k - g])
            == group_spec(ls[0], group_lines(ls, k)).unwrap() by {
            if k > g {
                assert(all[k - g] == rest[k - (g + 1)]);
            }
        }
    }
}

/// Over blocks that are all well formed, the blocks from `b` on are read into
/// one record per group, block after block and group after group.
pub proof fn lemma_blocks_read_in_order(blocks: Seq<Seq<u8>>, b: int)
    requires
        0 <= b <= blocks.len(),
        forall|c: int| 0 <= c < blocks.len() ==> block_well_formed(#[trigger] blocks[c]),
    ensures
        blocks_from(blocks, b) is Ok,
        blocks_from(blocks, b).unwrap().len() == groups_before(blocks, blocks.len() as int)
            - groups_before(blocks, b),
        forall|c: int, g: int|
            b <= c < blocks.len() && 0 <= g < groups_in(blocks, c) ==> {
                let at = groups_before(blocks, c) - groups_before(blocks, b) + g;
                &&& 0 <= at < blocks_from(blocks, b).unwrap().len()
                &&& blocks_from(blocks, b).unwrap()[at] == #[trigger] record_at(blocks, c, g)
            },
    decreases blocks.len() - b,
{
    let n = blocks.len() as int;
    if b < n {
        lemma_blocks_read_in_order(blocks, b + 1);
        let ls = lines_spec(blocks[b]);
        assert(block_well_formed(blocks[b]));
        lemma_groups_read_in_order(ls, b, 0);
        let here = groups_from(ls, b, 0).unwrap();
        let rest = blocks_from(blocks, b + 1).unwrap();
        let all = blocks_from(blocks, b).unwrap();
        assert(all == here + rest);
        assert(groups_before(blocks, b + 1) == groups_before(blocks, b) + groups_in(blocks, b));
        assert forall|c: int, g: int|
            b <= c < blocks.len() && 0 <= g < groups_in(blocks, c) implies {
            let at = groups_before(blocks, c) - groups_before(blocks, b) + g;
            &&& 0 <= at < all.len()
            &&& all[at] == #[trigger] record_at(blocks, c, g)
        } by {
            let at = groups_before(blocks, c) - groups_before(blocks, b) + g;
            if c == b {
                assert(at == g);
                assert(all[at] == here[g - 0]);
            } else {
                lemma_groups_before_grows(blocks, b + 1, c);
                let inner = groups_before(blocks, c) - groups_before(blocks, b + 1) + g;
                assert(rest[inner] == record_at(blocks, c, g));
                assert(at == here.len() + inner);
                assert(all[at] == rest[inner]);
            }
        }
    }
}

/// Reading a well-formed atlas text succeeds; it gives as many records as the
/// text has sprite groups, and the record of group `g` of block `b` stands
/// behind those of all earlier groups, with the offset and the size that the
/// group's lines give.
pub proof fn lemma_parse_total_and_ordered(input: Seq<u8>)
    requires
        well_formed(input),
    ensures
        parse_spec(input) is Ok,
        parse_spec(input).unwrap().len() == groups_before(
            blocks_of(input),
            blocks_of(input).len() as int,
        ),
        forall|b: int, g: int|
            0 <= b < blocks_of(input).len() && 0 <= g < groups_in(blocks_of(input), b) ==> {
                let at = groups_before(blocks_of(input), b) + g;
                &&& 0 <= at < parse_spec(input).unwrap().len()
                &&& parse_spec(input).unwrap()[at] == #[trigger] record_at(blocks_of(input), b, g)
            },
{
    lemma_blocks_read_in_order(blocks_of(input), 0);
}

/// A fault in any group makes the whole reading fail: no text is read in part.
pub proof fn lemma_parse_fails_on_fault(input: Seq<u8>)
    requires
        !well_formed(input),
    ensures
        parse_spec(input) is Err,
{
    let blocks = blocks_of(input);
    let b = choose|b: int| 0 <= b < blocks.len() && !block_well_formed(#[trigger] blocks[b]);
    lemma_block_fault_fails(blocks, 0, b);
}

/// A block that is not well formed fails the reading of every run of blocks
/// that holds it.
pub proof fn lemma_block_fault_fails(blocks: Seq<Seq<u8>>, from: int, b: int)
    requires
        0 <= from <= b < blocks.len(),
        !block_well_formed(blocks[b]),
    ensures
        blocks_from(blocks, from) is Err,
    decreases b - from,
{
    if from < b {
        lemma_block_fault_fails(blocks, from + 1, b);
    } else {
        let ls = lines_spec(blocks[b]);
        if ls.len() > 0 {
            let g = choose|g: int|
                0 <= g < group_count(ls.len() as int) && !((#[trigger] group_spec(
                    ls[0],
                    group_lines(ls, g),
                )) is Ok);
            lemma_group_fault_fails(ls, b, 0, g);
        }
    }
}

/// A group that describes no sprite fails the reading of its block.
pub proof fn lemma_group_fault_fails(ls: Seq<Seq<u8>>, b: int, from: int, g: int)
    requires
        0 <= from <= g < group_count(ls.len() as int),
        !(group_spec(ls[0], group_lines(ls, g)) is Ok),
    ensures
        groups_from(ls, b, from) is Err,
    decreases g - from,
{
    if from < g {
        lemma_group_fault_fails(ls, b, from + 1, g);
    }
}

/// Cutting a text at every "/" leaves pieces without "/".
pub proof fn lemma_pieces_plain(s: Seq<u8>, start: int, i: int)
    requires
        0 <= start <= i <= s.len(),
        forall|k: int| start <= k < i ==> #[trigger] s[k] != 47u8,
    ensures
        forall|j: int|
            0 <= j < pieces(s, slash(), start, i).len() ==> no_separator(
                #[trigger] pieces(s, slash(), start, i)[j],
            ),
    decreases s.len() - i,
{
    let pat = slash();
    assert(pat.len() == 1);
    let head = s.subrange(start, i);
    assert(no_separator(head)) by {
        assert forall|k: int| 0 <= k < head.len() implies #[trigger] head[k] != 47u8 by {
            assert(head[k] == s[start + k]);
        }
    }
    if i + pat.len() > s.len() {
        assert(i == s.len());
        let all = pieces(s, pat, start, i);
        assert(all == seq![head]);
        assert(all[0] == head);
        assert(all.len() == 1);
    } else if matches_at(s, pat, i) {
        lemma_pieces_plain(s, i + 1, i + 1);
        let rest = pieces(s, pat, i + 1, i + 1);
        let all = pieces(s, pat, start, i);
        assert(all == seq![head] + rest);
        assert forall|j: int| 0 <= j < all.len() implies no_separator(#[trigger] all[j]) by {
            if j > 0 {
                assert(all[j] == rest[j - 1]);
            } else {
                assert(all[0] == head);
            }
        }
    } else {
        if s[i] == 47u8 {
            assert(s.subrange(i, i + 1) =~= pat);
        }
        lemma_pieces_plain(s, start, i + 1);
        assert(pieces(s, pat, start, i) == pieces(s, pat, start, i + 1));
    }
}

/// The names of a record that a group describes hold no "/".
pub proof fn lemma_group_plain(sheet: Seq<u8>, g: Seq<Seq<u8>>)
    requires
        group_spec(sheet, g) is Ok,
    ensures
        plain_names(group_spec(sheet, g).unwrap()),
{
    lemma_pieces_plain(g[0], 0, 0);
    let segs = split_spec(g[0], slash());
    assert(no_separator(segs[0]));
    assert(no_separator(segs[1]));
    assert(no_separator(segs[segs.len() - 1]));
}

/// The names of the records of a block hold no "/".
pub proof fn lemma_groups_plain(ls: Seq<Seq<u8>>, b: int, g: int)
    requires
        groups_from(ls, b, g) is Ok,
    ensures
        forall|k: int|
            0 <= k < groups_from(ls, b, g).unwrap().len() ==> plain_names(
                #[trigger] groups_from(ls, b, g).unwrap()[k],
            ),
    decreases group_count(ls.len() as int) - g,
{
    if 0 <= g < group_count(ls.len() as int) {
        lemma_group_plain(ls[0], group_lines(ls, g));
        lemma_groups_plain(ls, b, g + 1);
        let r = group_spec(ls[0], group_lines(ls, g)).unwrap();
        let rest = groups_from(ls, b, g + 1).unwrap();
        let all = groups_from(ls, b, g).unwrap();
        assert(all == seq![r] + rest);
        assert forall|k: int| 0 <= k < all.len() implies plain_names(#[trigger] all[k]) by {
            if k > 0 {
                assert(all[k] == rest[k - 1]);
            }
        }
    }
}

/// The names of the records of a run of blocks hold no "/".
pub proof fn lemma_blocks_plain(blocks: Seq<Seq<u8>>, b: int)
    requires
        blocks_from(blocks, b) is Ok,
    ensures
        forall|k: int|
            0 <= k < blocks_from(blocks, b).unwrap().len() ==> plain_names(
                #[trigger] blocks_from(blocks, b).unwrap()[k],
            ),
    decreases blocks.len() - b,
{
    if 0 <= b < blocks.len() {
        let here = block_spec(blocks[b], b).unwrap();
        lemma_groups_plain(lines_spec(blocks[b]), b, 0);
        lemma_blocks_plain(blocks, b + 1);
        let rest = blocks_from(blocks, b + 1).unwrap();
        let all = blocks_from(blocks, b).unwrap();
        assert(all == here + rest);
        assert forall|k: int| 0 <= k < all.len() implies plain_names(#[trigger] all[k]) by {
            if k >= here.len() {
                assert(all[k] == rest[k - here.len()]);
            } else {
                assert(all[k] == here[k]);
            }
        }
    }
}

/// No record that is read from an atlas has a "/" in its character, its
/// category or its base name.
pub proof fn lemma_parsed_names_plain(input: Seq<u8>)
    requires
        parse_spec(input) is Ok,
    ensures
        forall|k: int|
            0 <= k < parse_spec(input).unwrap().len() ==> plain_names(
                #[trigger] parse_spec(input).unwrap()[k],
            ),
{
    lemma_blocks_plain(blocks_of(input), 0);
}

/// Distributing the records of an atlas never writes the file
/// "status/beta.png" of any character, whatever is on disk.
pub proof fn lemma_distribution_spares_status_beta(
    input: Seq<u8>,
    k: int,
    root: Seq<u8>,
    present: bool,
    character: Seq<u8>,
)
    requires
        parse_spec(input) is Ok,
        0 <= k < parse_spec(input).unwrap().len(),
        no_separator(character),
    ensures
        move_spec(root, parse_spec(input).unwrap()[k], present) != Some(
            excluded_path(root, character),
        ),
{
    lemma_parsed_names_plain(input);
    crate::distribute::lemma_status_beta_never_written(
        root,
        parse_spec(input).unwrap()[k],
        present,
        character,
    );
}

} // verus!
