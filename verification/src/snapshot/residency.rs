//! Which bytes of a snapshot are paged in or locked, and in what pieces.

use vstd::prelude::*;

verus! {

/// The parts of a snapshot's file.
#[derive(Debug, Clone, Copy, PartialEq, Eq, Structural)]
pub enum Part {
    All,
    /// All but the distance tables.
    Head,
    Tables,
}

/// A range of bytes.
#[derive(Debug, Clone, Copy, PartialEq, Eq, Structural)]
pub struct ByteRange {
    pub off: usize,
    pub len: usize,
}

impl ByteRange {
    pub open spec fn has(self, i: int) -> bool {
        self.off <= i < self.off + self.len
    }
}

/// The ranges of a part of a file of `total` bytes, whose tables take the range `tables`.
pub open spec fn part_ranges(part: Part, total: usize, tables: ByteRange) -> Seq<ByteRange> {
    let tail = tables.off + tables.len;
    match part {
        Part::All => seq![ByteRange { off: 0, len: total }],
        Part::Head => {
            let front = ByteRange { off: 0, len: if tables.off < total { tables.off } else { total } };
            if tail < total {
                seq![front, ByteRange { off: tail as usize, len: (total - tail) as usize }]
            } else {
                seq![front]
            }
        },
        Part::Tables => seq![ByteRange {
            off: tables.off,
            len: if tail <= total {
                tables.len
            } else if tables.off < total {
                (total - tables.off) as usize
            } else {
                0
            },
        }],
    }
}

pub fn ranges_of(part: Part, total: usize, tables: ByteRange) -> (r: Vec<ByteRange>)
    requires
        tables.off + tables.len <= usize::MAX,
    ensures
        r@ == part_ranges(part, total, tables),
{
    let mut r: Vec<ByteRange> = Vec::new();
    let tail: usize = tables.off + tables.len;
    match part {
        Part::All => r.push(ByteRange { off: 0, len: total }),
        Part::Head => {
            r.push(
                ByteRange {
                    off: 0,
                    len: if tables.off < total {
                        tables.off
                    } else {
                        total
                    },
                },
            );
            if tail < total {
                r.push(ByteRange { off: tail, len: total - tail });
            }
        },
        Part::Tables => r.push(
            ByteRange {
                off: tables.off,
                len: if tail <= total {
                    tables.len
                } else if tables.off < total {
                    total - tables.off
                } else {
                    0
                },
            },
        ),
    }
    assert(r@ =~= part_ranges(part, total, tables));
    r
}

/// Whether a byte lies in one of the ranges.
pub open spec fn in_ranges(s: Seq<ByteRange>, i: int) -> bool {
    exists|k: int| 0 <= k < s.len() && (#[trigger] s[k]).has(i)
}

/// The head and the tables together are all of the file, and no byte is in both.
pub proof fn law_parts_make_the_whole(total: usize, tables: ByteRange, i: int)
    requires
        tables.off + tables.len <= total,
        0 <= i < total,
    ensures
        in_ranges(part_ranges(Part::All, total, tables), i),
        in_ranges(part_ranges(Part::Head, total, tables), i) <==> !in_ranges(part_ranges(Part::Tables, total, tables), i),
{
    let all = part_ranges(Part::All, total, tables);
    let head = part_ranges(Part::Head, total, tables);
    let tabs = part_ranges(Part::Tables, total, tables);
    assert(all[0].has(i));
    if tables.has(i) {
        assert(tabs[0].has(i));
    } else if i < tables.off {
        assert(head[0].has(i));
    } else {
        assert(head[1].has(i));
    }
}

/// The least size of a piece, 8 MiB.
pub const PIECE_LEAST: usize = 0x80_0000;

/// Pieces start at multiples of this, 2 MiB, from the start of their range.
pub const PIECE_GRAIN: usize = 0x20_0000;

/// The number of pieces that a range is cut into: one for every 8 MiB, but for one at least, and
/// for no more than there are cores or than eight.
pub open spec fn piece_count(len: usize, cores: usize) -> usize {
    let most = if cores < 1 {
        1
    } else if cores > 8 {
        8
    } else {
        cores
    };
    let want = len / PIECE_LEAST;
    if want < 1 {
        1
    } else if want > most {
        most
    } else {
        want
    }
}

/// The size of the pieces: an equal share, rounded up to the grain.
pub open spec fn piece_size(len: usize, count: usize) -> int {
    let share = (len + count - 1) / count as int;
    (share + PIECE_GRAIN - 1) / PIECE_GRAIN as int * PIECE_GRAIN
}

/// The pieces from `start` on.
pub open spec fn pieces_from(start: int, end: int, size: int) -> Seq<ByteRange>
    decreases (if end > start { end - start } else { 0 }),
{
    if start >= end || size <= 0 {
        Seq::empty()
    } else {
        seq![ByteRange { off: start as usize, len: if start + size < end { size as usize } else { (end - start) as usize } }]
            + pieces_from(start + size, end, size)
    }
}

proof fn lemma_pieces(start: int, end: int, size: int, i: int)
    requires
        0 <= start,
        end <= usize::MAX,
        size > 0,
        start <= i < end,
    ensures
        in_ranges(pieces_from(start, end, size), i),
    decreases end - start,
{
    let s = pieces_from(start, end, size);
    let rest = pieces_from(start + size, end, size);
    if i < start + size {
        assert(s[0].has(i));
    } else {
        lemma_pieces(start + size, end, size, i);
        let k = choose|k: int| 0 <= k < rest.len() && (#[trigger] rest[k]).has(i);
        assert(s[k + 1] == rest[k]);
    }
}

/// Every byte of a range is in one of its pieces.
pub proof fn law_pieces_cover(off: usize, len: usize, size: int, i: int)
    requires
        off + len <= usize::MAX,
        size > 0,
        off <= i < off + len,
    ensures
        in_ranges(pieces_from(off as int, off + len, size), i),
{
    lemma_pieces(off as int, off + len, size, i);
}

/// The pieces that a range is cut into, to be paged in side by side.
pub fn pieces_of(range: ByteRange, cores: usize) -> (r: Vec<ByteRange>)
    requires
        range.off + range.len + 0x40_0000 <= usize::MAX,
    ensures
        r@ == pieces_from(
            range.off as int,
            range.off + range.len,
            piece_size(range.len, piece_count(range.len, cores)),
        ),
{
    let most: usize = if cores < 1 {
        1
    } else if cores > 8 {
        8
    } else {
        cores
    };
    let want: usize = range.len / PIECE_LEAST;
    let count: usize = if want < 1 {
        1
    } else if want > most {
        most
    } else {
        want
    };
    assert(count == piece_count(range.len, cores));
    let share: usize = (range.len + (count - 1)) / count;
    proof {
        assert(share == (range.len + count - 1) / count as int);
        assert(0 <= share <= range.len + count - 1) by (nonlinear_arith)
            requires
                share == (range.len + count - 1) / count as int,
                1 <= count <= 8,
                range.len >= 0,
        ;
    }
    let size: usize = (share + (PIECE_GRAIN - 1)) / PIECE_GRAIN * PIECE_GRAIN;
    proof {
        assert(size == piece_size(range.len, count));
        assert(range.len > 0 ==> share >= 1) by (nonlinear_arith)
            requires
                share == (range.len + count - 1) / count as int,
                1 <= count <= 8,
        ;
    }
    let end: usize = range.off + range.len;
    let mut r: Vec<ByteRange> = Vec::new();
    let mut start: usize = range.off;
    if range.len == 0 {
        return r;
    }
    let ghost want_all = pieces_from(range.off as int, end as int, size as int);
    assert(r@ + pieces_from(start as int, end as int, size as int) =~= want_all);
    while start < end
        invariant
            size > 0,
            start <= end,
            want_all == r@ + pieces_from(start as int, end as int, size as int),
        decreases end - start,
    {
        let left: usize = end - start;
        let ghost before = r@;
        if left > size {
            r.push(ByteRange { off: start, len: size });
            assert(before + pieces_from(start as int, end as int, size as int) =~= r@ + pieces_from(
                start + size,
                end as int,
                size as int,
            ));
            start += size;
        } else {
            r.push(ByteRange { off: start, len: left });
            assert(pieces_from(start + size, end as int, size as int) =~= Seq::<ByteRange>::empty());
            assert(before + pieces_from(start as int, end as int, size as int) =~= r@ + pieces_from(
                end as int,
                end as int,
                size as int,
            ));
            start = end;
        }
    }
    assert(r@ =~= want_all);
    r
}

/// A range is cut into at most eight pieces and at most one for each core, none of them too small to be worth
/// it, and into as many as that allows.
pub proof fn law_piece_counts(len: usize, cores: usize)
    ensures
        1 <= piece_count(len, cores) <= 8,
        piece_count(len, cores) <= cores || piece_count(len, cores) == 1,
        piece_count(len, cores) > 1 ==> piece_count(len, cores) * PIECE_LEAST <= len,
        piece_count(len, cores) < 8 && piece_count(len, cores) < cores ==> len < (piece_count(len, cores) + 1) * PIECE_LEAST,
{
}

}
