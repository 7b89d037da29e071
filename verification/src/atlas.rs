//! The atlas text: blocks separated by a blank line, each a sheet's file name,
//! four lines about the sheet, and groups of seven lines, one group per sprite.

use crate::bytes::{
    decimal_spec, find, find_from, lines, lines_spec, parse_decimal, split, split_spec, to_vec,
    trim, trim_spec, views,
};
use crate::record::{record_views, SpriteRecord, SpriteRecordView};
use vstd::prelude::*;

verus! {

/// What is wrong with an atlas text.
#[derive(Debug, Clone, Copy, PartialEq, Eq, Structural)]
pub enum ParseErrorKind {
    /// A block has no line at all, so no sheet is named.
    EmptyBlock,
    /// A sprite's group ends before its size line.
    ShortGroup,
    /// A sprite's path has neither two nor three segments.
    PathSegments,
    /// A line is not of the shape `key: v1, v2`.
    LineShape,
    /// A coordinate is not an integer of 32 bits without sign.
    Coordinate,
}

/// A fault in the atlas text and the place where it was found.
#[derive(Debug, Clone, Copy, PartialEq, Eq, Structural)]
pub struct ParseError {
    pub kind: ParseErrorKind,
    /// The block's index in the text.
    pub block: usize,
    /// The group's index in its block.
    pub group: usize,
}

/// The lines of a block before its first group: the sheet's name and four more.
pub const HEADER_LINES: usize = 5;

/// The lines of one sprite's group.
pub const GROUP_LINES: usize = 7;

/// The text ": ".
pub open spec fn colon_space() -> Seq<u8> {
    seq![58u8, 32u8]
}

/// The text ", ".
pub open spec fn comma_space() -> Seq<u8> {
    seq![44u8, 32u8]
}

/// The text "/".
pub open spec fn slash() -> Seq<u8> {
    seq![47u8]
}

/// The separator of blocks: two line feeds.
pub open spec fn blank_line() -> Seq<u8> {
    seq![10u8, 10u8]
}

/// The two numbers of a line `key: v1, v2`. The value is what stands between
/// the first ": " and the next one; its first ", " parts the two numbers.
pub open spec fn pair_spec(line: Seq<u8>) -> Result<(u32, u32), ParseErrorKind> {
    let fields = split_spec(line, colon_space());
    if fields.len() < 2 {
        Err(ParseErrorKind::LineShape)
    } else {
        let v = fields[1];
        let at = find_from(v, comma_space(), 0);
        if at >= v.len() {
            Err(ParseErrorKind::LineShape)
        } else {
            let a = decimal_spec(v.subrange(0, at), u32::MAX as int);
            let b = decimal_spec(v.subrange(at + 2, v.len() as int), u32::MAX as int);
            if a.is_some() && b.is_some() {
                Ok((a.unwrap() as u32, b.unwrap() as u32))
            } else {
                Err(ParseErrorKind::Coordinate)
            }
        }
    }
}

/// The record that the group of lines `g` under the sheet `sheet` describes:
/// the path on its first line, the offset on its third, the size on its fifth.
pub open spec fn group_spec(sheet: Seq<u8>, g: Seq<Seq<u8>>) -> Result<
    SpriteRecordView,
    ParseErrorKind,
> {
    if g.len() < 5 {
        Err(ParseErrorKind::ShortGroup)
    } else {
        let segs = split_spec(g[0], slash());
        if segs.len() != 2 && segs.len() != 3 {
            Err(ParseErrorKind::PathSegments)
        } else {
            match pair_spec(g[2]) {
                Err(k) => Err(k),
                Ok(xy) => match pair_spec(g[4]) {
                    Err(k) => Err(k),
                    Ok(wh) => Ok(
                        SpriteRecordView {
                            sheet_file: sheet,
                            character: segs[0],
                            category: if segs.len() == 3 {
                                Some(segs[1])
                            } else {
                                None
                            },
                            base_name: segs[segs.len() - 1],
                            offset: xy,
                            extent: wh,
                        },
                    ),
                },
            }
        }
    }
}

/// The number of groups in a block of `n` lines; the last may be short.
pub open spec fn group_count(n: int) -> int {
    if n <= 5 {
        0
    } else {
        (n - 5 + 6) / 7
    }
}

/// The lines of group `g` of a block.
pub open spec fn group_lines(ls: Seq<Seq<u8>>, g: int) -> Seq<Seq<u8>> {
    let start = 5 + 7 * g;
    let end = if start + 7 <= ls.len() { start + 7 } else { ls.len() as int };
    ls.subrange(start, end)
}

/// The records of the groups `g`, `g + 1`, ... of block `b`, or the first fault.
pub open spec fn groups_from(ls: Seq<Seq<u8>>, b: int, g: int) -> Result<
    Seq<SpriteRecordView>,
    ParseError,
>
    decreases group_count(ls.len() as int) - g,
{
    if g < 0 || g >= group_count(ls.len() as int) {
        Ok(Seq::empty())
    } else {
        match group_spec(ls[0], group_lines(ls, g)) {
            Err(k) => Err(ParseError { kind: k, block: b as usize, group: g as usize }),
            Ok(r) => match groups_from(ls, b, g + 1) {
                Err(e) => Err(e),
                Ok(rest) => Ok(seq![r] + rest),
            },
        }
    }
}

/// The records of block `b`, whose text is `block`, or its first fault.
pub open spec fn block_spec(block: Seq<u8>, b: int) -> Result<Seq<SpriteRecordView>, ParseError> {
    let ls = lines_spec(block);
    if ls.len() == 0 {
        Err(ParseError { kind: ParseErrorKind::EmptyBlock, block: b as usize, group: 0 })
    } else {
        groups_from(ls, b, 0)
    }
}

/// The records of the blocks `b`, `b + 1`, ..., or the first fault.
pub open spec fn blocks_from(blocks: Seq<Seq<u8>>, b: int) -> Result<
    Seq<SpriteRecordView>,
    ParseError,
>
    decreases blocks.len() - b,
{
    if b < 0 || b >= blocks.len() {
        Ok(Seq::empty())
    } else {
        match block_spec(blocks[b], b) {
            Err(e) => Err(e),
            Ok(r) => match blocks_from(blocks, b + 1) {
                Err(e) => Err(e),
                Ok(rest) => Ok(r + rest),
            },
        }
    }
}

/// The blocks of an atlas text.
pub open spec fn blocks_of(input: Seq<u8>) -> Seq<Seq<u8>> {
    split_spec(trim_spec(input), blank_line())
}

/// The records of an atlas text, in the order of the text, or its first fault.
pub open spec fn parse_spec(input: Seq<u8>) -> Result<Seq<SpriteRecordView>, ParseError> {
    blocks_from(blocks_of(input), 0)
}

/// `acc` put before the records of `rest`; a fault stays.
pub open spec fn prepend(acc: Seq<SpriteRecordView>, rest: Result<Seq<SpriteRecordView>, ParseError>)
    -> Result<Seq<SpriteRecordView>, ParseError> {
    match rest {
        Err(e) => Err(e),
        Ok(r) => Ok(acc + r),
    }
}

/// Reads the two numbers of a line `key: v1, v2`.
pub fn parse_pair(line: &[u8]) -> (r: Result<(u32, u32), ParseErrorKind>)
    ensures
        r == pair_spec(line@),
{
    let cs: [u8; 2] = [58, 32];
    let cm: [u8; 2] = [44, 32];
    proof {
        assert(cs@ =~= colon_space());
        assert(cm@ =~= comma_space());
    }
    let fields = split(line, cs.as_slice());
    if fields.len() < 2 {
        return Err(ParseErrorKind::LineShape);
    }
    let v = fields[1].as_slice();
    proof {
        assert(views(fields@)[1] == fields@[1]@);
    }
    let at = find(v, cm.as_slice(), 0);
    if at >= v.len() {
        return Err(ParseErrorKind::LineShape);
    }
    let first = crate::bytes::copy_range(v, 0, at);
    let second = crate::bytes::copy_range(v, at + 2, v.len());
    let a = parse_decimal(first.as_slice(), 0xFFFF_FFFFu64);
    let b = parse_decimal(second.as_slice(), 0xFFFF_FFFFu64);
    match (a, b) {
        (Some(x), Some(y)) => Ok((x as u32, y as u32)),
        _ => Err(ParseErrorKind::Coordinate),
    }
}

/// Reads the record of the group `lines[start..end]` under the sheet `sheet`.
pub fn parse_group(sheet: &[u8], lines: &Vec<Vec<u8>>, start: usize, end: usize) -> (r: Result<
    SpriteRecord,
    ParseErrorKind,
>)
    requires
        start <= end <= lines.len(),
    ensures
        match r {
            Ok(rec) => group_spec(sheet@, views(lines@).subrange(start as int, end as int)) == Ok::<
                SpriteRecordView,
                ParseErrorKind,
            >(rec@),
            Err(k) => group_spec(sheet@, views(lines@).subrange(start as int, end as int)) == Err::<
                SpriteRecordView,
                ParseErrorKind,
            >(k),
        },
{
    let ghost g = views(lines@).subrange(start as int, end as int);
    if end - start < 5 {
        return Err(ParseErrorKind::ShortGroup);
    }
    proof {
        assert(g[0] == lines@[start as int]@);
        assert(g[2] == lines@[start + 2]@);
        assert(g[4] == lines@[start + 4]@);
    }
    let sl: [u8; 1] = [47];
    proof {
        assert(sl@ =~= slash());
    }
    let mut segs = split(lines[start].as_slice(), sl.as_slice());
    let ghost sv = views(segs@);
    let n: usize = segs.len();
    if n != 2 && n != 3 {
        return Err(ParseErrorKind::PathSegments);
    }
    proof {
        assert(sv[0] == segs@[0]@);
        assert(sv[1] == segs@[1]@);
        assert(sv[n - 1] == segs@[n - 1]@);
    }
    let xy = match parse_pair(lines[start + 2].as_slice()) {
        Ok(p) => p,
        Err(k) => {
            return Err(k);
        },
    };
    let wh = match parse_pair(lines[start + 4].as_slice()) {
        Ok(p) => p,
        Err(k) => {
            return Err(k);
        },
    };
    let base_name = segs.pop().unwrap();
    let category = if n == 3 {
        segs.pop()
    } else {
        None
    };
    let character = segs.pop().unwrap();
    Ok(
        SpriteRecord {
            sheet_file: to_vec(sheet),
            character,
            category,
            base_name,
            offset: xy,
            extent: wh,
        },
    )
}

/// Reads the records of block `b`, whose text is `block`.
pub fn parse_block(block: &[u8], b: usize) -> (r: Result<Vec<SpriteRecord>, ParseError>)
    ensures
        match r {
            Ok(records) => block_spec(block@, b as int) == Ok::<Seq<SpriteRecordView>, ParseError>(
                record_views(records@),
            ),
            Err(e) => block_spec(block@, b as int) == Err::<Seq<SpriteRecordView>, ParseError>(e),
        },
{
    let ls = lines(block);
    if ls.len() == 0 {
        return Err(ParseError { kind: ParseErrorKind::EmptyBlock, block: b, group: 0 });
    }
    let ghost lv = views(ls@);
    let mut out: Vec<SpriteRecord> = Vec::new();
    let mut g: usize = 0;
    let mut start: usize = HEADER_LINES;
    proof {
        assert(record_views(out@) =~= Seq::<SpriteRecordView>::empty());
        let all = groups_from(lv, b as int, 0);
        if all is Ok {
            assert(Seq::<SpriteRecordView>::empty() + all.unwrap() =~= all.unwrap());
        }
    }
    while start < ls.len()
        invariant
            lv == views(ls@),
            lv == lines_spec(block@),
            ls.len() > 0,
            start == 5 + 7 * g,
            g <= group_count(ls.len() as int),
            groups_from(lv, b as int, 0) == prepend(
                record_views(out@),
                groups_from(lv, b as int, g as int),
            ),
        decreases ls.len() - start,
    {
        let end: usize = if ls.len() - start >= GROUP_LINES {
            start + GROUP_LINES
        } else {
            ls.len()
        };
        proof {
            assert(lv[0] == ls@[0]@);
            assert(group_lines(lv, g as int) == lv.subrange(start as int, end as int));
        }
        match parse_group(ls[0].as_slice(), &ls, start, end) {
            Err(k) => {
                return Err(ParseError { kind: k, block: b, group: g });
            },
            Ok(rec) => {
                proof {
                    let rest = groups_from(lv, b as int, g + 1);
                    assert(record_views(out@.push(rec)) =~= record_views(out@) + seq![rec@]);
                    if rest is Ok {
                        assert((record_views(out@) + seq![rec@]) + rest.unwrap() =~= record_views(
                            out@,
                        ) + (seq![rec@] + rest.unwrap()));
                    }
                }
                out.push(rec);
            },
        }
        if end == ls.len() {
            proof {
                assert(g + 1 >= group_count(ls.len() as int));
                assert(record_views(out@) + Seq::<SpriteRecordView>::empty() =~= record_views(out@));
            }
            return Ok(out);
        }
        start = end;
        g += 1;
    }
    proof {
        assert(g >= group_count(ls.len() as int));
        assert(record_views(out@) + Seq::<SpriteRecordView>::empty() =~= record_views(out@));
    }
    Ok(out)
}

/// Reads an atlas text into its records, in the order of the text. Any fault
/// in the text fails the whole reading, with the first faulty place.
pub fn parse_input(input: &[u8]) -> (r: Result<Vec<SpriteRecord>, ParseError>)
    ensures
        match r {
            Ok(records) => parse_spec(input@) == Ok::<Seq<SpriteRecordView>, ParseError>(
                record_views(records@),
            ),
            Err(e) => parse_spec(input@) == Err::<Seq<SpriteRecordView>, ParseError>(e),
        },
{
    let text = trim(input);
    let sep: [u8; 2] = [10, 10];
    proof {
        assert(sep@ =~= blank_line());
    }
    let blocks = split(text.as_slice(), sep.as_slice());
    let ghost bv = views(blocks@);
    let mut out: Vec<SpriteRecord> = Vec::new();
    let mut b: usize = 0;
    proof {
        assert(record_views(out@) =~= Seq::<SpriteRecordView>::empty());
        let all = blocks_from(bv, 0);
        if all is Ok {
            assert(Seq::<SpriteRecordView>::empty() + all.unwrap() =~= all.unwrap());
        }
    }
    while b < blocks.len()
        invariant
            b <= blocks.len(),
            bv == views(blocks@),
            bv == blocks_of(input@),
            blocks_from(bv, 0) == prepend(record_views(out@), blocks_from(bv, b as int)),
        decreases blocks.len() - b,
    {
        let ghost prev = record_views(out@);
        proof {
            assert(bv[b as int] == blocks@[b as int]@);
        }
        match parse_block(blocks[b].as_slice(), b) {
            Err(e) => {
                return Err(e);
            },
            Ok(mut records) => {
                proof {
                    let blk = record_views(records@);
                    let rest = blocks_from(bv, b + 1);
                    assert(record_views(out@ + records@) =~= prev + blk);
                    if rest is Ok {
                        assert((prev + blk) + rest.unwrap() =~= prev + (blk + rest.unwrap()));
                    }
                }
                out.append(&mut records);
            },
        }
        b += 1;
    }
    proof {
        assert(record_views(out@) + Seq::<SpriteRecordView>::empty() =~= record_views(out@));
    }
    Ok(out)
}

} // verus!
