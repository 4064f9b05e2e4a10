//! What the bit-OR challenge's transcript determines.

use crate::bignum::{be_of, lemma_be_of_reads_back};
use crate::bits::bit_or_transcript;
use crate::bits::bit_or_tag;
use crate::transcript::{fs_piece_bytes, lemma_fs_piece_unique};
use vstd::prelude::*;

verus! {

/// The transcript's pieces after the tag, nested from the right.
spec fn nested_pieces(x: (nat, nat, nat, nat, nat, nat, nat)) -> Seq<u8> {
    fs_piece_bytes(1, be_of(x.0)) + (fs_piece_bytes(2, be_of(x.1)) + (fs_piece_bytes(3, be_of(x.2))
        + (fs_piece_bytes(4, be_of(x.3)) + (fs_piece_bytes(5, be_of(x.4)) + (fs_piece_bytes(
        6,
        be_of(x.5),
    ) + fs_piece_bytes(7, be_of(x.6)))))))
}

proof fn lemma_regroup(
    t: Seq<u8>,
    p1: Seq<u8>,
    p2: Seq<u8>,
    p3: Seq<u8>,
    p4: Seq<u8>,
    p5: Seq<u8>,
    p6: Seq<u8>,
    p7: Seq<u8>,
)
    ensures
        t + p1 + p2 + p3 + p4 + p5 + p6 + p7 == t + (p1 + (p2 + (p3 + (p4 + (p5 + (p6 + p7)))))),
{
    let r6 = p6 + p7;
    let r5 = p5 + r6;
    let r4 = p4 + r5;
    let r3 = p3 + r4;
    let r2 = p2 + r3;
    let r1 = p1 + r2;
    let l1 = t + p1;
    let l2 = l1 + p2;
    let l3 = l2 + p3;
    let l4 = l3 + p4;
    let l5 = l4 + p5;
    let l6 = l5 + p6;
    assert(l5 + r6 =~= l6 + p7);
    assert(l4 + r5 =~= l5 + r6);
    assert(l3 + r4 =~= l4 + r5);
    assert(l2 + r3 =~= l3 + r4);
    assert(l1 + r2 =~= l2 + r3);
    assert(t + r1 =~= l1 + r2);
}

proof fn lemma_transcript_nested(x: (nat, nat, nat, nat, nat, nat, nat))
    ensures
        bit_or_transcript(x.0, x.1, x.2, x.3, x.4, x.5, x.6) == bit_or_tag() + nested_pieces(x),
{
    lemma_regroup(
        bit_or_tag(),
        fs_piece_bytes(1, be_of(x.0)),
        fs_piece_bytes(2, be_of(x.1)),
        fs_piece_bytes(3, be_of(x.2)),
        fs_piece_bytes(4, be_of(x.3)),
        fs_piece_bytes(5, be_of(x.4)),
        fs_piece_bytes(6, be_of(x.5)),
        fs_piece_bytes(7, be_of(x.6)),
    );
}

/// The bit-OR transcript determines everything it hashes: two equal
/// transcripts come from the same `g`, `h`, `p`, the same branch targets
/// `y0` and `y1`, and the same commitments `a0`, `a1` (for numbers whose
/// encodings are shorter than 2^32 bytes).
pub proof fn lemma_bit_or_transcript_injective(
    x: (nat, nat, nat, nat, nat, nat, nat),
    z: (nat, nat, nat, nat, nat, nat, nat),
)
    requires
        be_of(x.0).len() < 0x1_0000_0000 && be_of(z.0).len() < 0x1_0000_0000,
        be_of(x.1).len() < 0x1_0000_0000 && be_of(z.1).len() < 0x1_0000_0000,
        be_of(x.2).len() < 0x1_0000_0000 && be_of(z.2).len() < 0x1_0000_0000,
        be_of(x.3).len() < 0x1_0000_0000 && be_of(z.3).len() < 0x1_0000_0000,
        be_of(x.4).len() < 0x1_0000_0000 && be_of(z.4).len() < 0x1_0000_0000,
        be_of(x.5).len() < 0x1_0000_0000 && be_of(z.5).len() < 0x1_0000_0000,
        be_of(x.6).len() < 0x1_0000_0000 && be_of(z.6).len() < 0x1_0000_0000,
        bit_or_transcript(x.0, x.1, x.2, x.3, x.4, x.5, x.6) == bit_or_transcript(
            z.0,
            z.1,
            z.2,
            z.3,
            z.4,
            z.5,
            z.6,
        ),
    ensures
        x == z,
{
    let t = bit_or_tag();
    lemma_transcript_nested(x);
    lemma_transcript_nested(z);
    let nx = nested_pieces(x);
    let nz = nested_pieces(z);
    assert(nx =~= (t + nx).subrange(t.len() as int, (t + nx).len() as int));
    assert(nz =~= (t + nz).subrange(t.len() as int, (t + nz).len() as int));
    let e = Seq::<u8>::empty();
    lemma_fs_piece_unique(
        1,
        be_of(x.0),
        be_of(z.0),
        fs_piece_bytes(2, be_of(x.1)) + (fs_piece_bytes(3, be_of(x.2)) + (fs_piece_bytes(
            4,
            be_of(x.3),
        ) + (fs_piece_bytes(5, be_of(x.4)) + (fs_piece_bytes(6, be_of(x.5)) + fs_piece_bytes(
            7,
            be_of(x.6),
        ))))),
        fs_piece_bytes(2, be_of(z.1)) + (fs_piece_bytes(3, be_of(z.2)) + (fs_piece_bytes(
            4,
            be_of(z.3),
        ) + (fs_piece_bytes(5, be_of(z.4)) + (fs_piece_bytes(6, be_of(z.5)) + fs_piece_bytes(
            7,
            be_of(z.6),
        ))))),
    );
    lemma_fs_piece_unique(
        2,
        be_of(x.1),
        be_of(z.1),
        fs_piece_bytes(3, be_of(x.2)) + (fs_piece_bytes(4, be_of(x.3)) + (fs_piece_bytes(
            5,
            be_of(x.4),
        ) + (fs_piece_bytes(6, be_of(x.5)) + fs_piece_bytes(7, be_of(x.6))))),
        fs_piece_bytes(3, be_of(z.2)) + (fs_piece_bytes(4, be_of(z.3)) + (fs_piece_bytes(
            5,
            be_of(z.4),
        ) + (fs_piece_bytes(6, be_of(z.5)) + fs_piece_bytes(7, be_of(z.6))))),
    );
    lemma_fs_piece_unique(
        3,
        be_of(x.2),
        be_of(z.2),
        fs_piece_bytes(4, be_of(x.3)) + (fs_piece_bytes(5, be_of(x.4)) + (fs_piece_bytes(
            6,
            be_of(x.5),
        ) + fs_piece_bytes(7, be_of(x.6)))),
        fs_piece_bytes(4, be_of(z.3)) + (fs_piece_bytes(5, be_of(z.4)) + (fs_piece_bytes(
            6,
            be_of(z.5),
        ) + fs_piece_bytes(7, be_of(z.6)))),
    );
    lemma_fs_piece_unique(
        4,
        be_of(x.3),
        be_of(z.3),
        fs_piece_bytes(5, be_of(x.4)) + (fs_piece_bytes(6, be_of(x.5)) + fs_piece_bytes(
            7,
            be_of(x.6),
        )),
        fs_piece_bytes(5, be_of(z.4)) + (fs_piece_bytes(6, be_of(z.5)) + fs_piece_bytes(
            7,
            be_of(z.6),
        )),
    );
    lemma_fs_piece_unique(
        5,
        be_of(x.4),
        be_of(z.4),
        fs_piece_bytes(6, be_of(x.5)) + fs_piece_bytes(7, be_of(x.6)),
        fs_piece_bytes(6, be_of(z.5)) + fs_piece_bytes(7, be_of(z.6)),
    );
    lemma_fs_piece_unique(
        6,
        be_of(x.5),
        be_of(z.5),
        fs_piece_bytes(7, be_of(x.6)),
        fs_piece_bytes(7, be_of(z.6)),
    );
    assert(fs_piece_bytes(7, be_of(x.6)) + e =~= fs_piece_bytes(7, be_of(x.6)));
    assert(fs_piece_bytes(7, be_of(z.6)) + e =~= fs_piece_bytes(7, be_of(z.6)));
    lemma_fs_piece_unique(7, be_of(x.6), be_of(z.6), e, e);
    lemma_be_of_reads_back(x.0);
    lemma_be_of_reads_back(z.0);
    lemma_be_of_reads_back(x.1);
    lemma_be_of_reads_back(z.1);
    lemma_be_of_reads_back(x.2);
    lemma_be_of_reads_back(z.2);
    lemma_be_of_reads_back(x.3);
    lemma_be_of_reads_back(z.3);
    lemma_be_of_reads_back(x.4);
    lemma_be_of_reads_back(z.4);
    lemma_be_of_reads_back(x.5);
    lemma_be_of_reads_back(z.5);
    lemma_be_of_reads_back(x.6);
    lemma_be_of_reads_back(z.6);
}

} // verus!
