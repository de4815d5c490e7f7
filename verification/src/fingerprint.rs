use vstd::prelude::*;
use vstd::string::*;

verus! {

/// Initial accumulator of the fingerprint fold.
pub const HASH_INIT: u64 = 0xcbf29ce484222325;

/// Multiplier of the fingerprint fold.
pub const HASH_PRIME: u64 = 0x100000001b3;

/// One fold step: the byte's one's-complement is mixed into the
/// accumulator, which is then multiplied, wrapping, by the prime.
pub open spec fn hash_step(h: u64, b: u8) -> u64 {
    vstd::wrapping::u64_specs::wrapping_mul(h ^ ((u64::MAX - b as u64) as u64), HASH_PRIME)
}

/// The fold over one byte sequence, starting from accumulator `h`.
pub open spec fn hash_bytes(h: u64, bs: Seq<u8>) -> u64
    decreases bs.len(),
{
    if bs.len() == 0 {
        h
    } else {
        hash_step(hash_bytes(h, bs.drop_last()), bs.last())
    }
}

/// The fold over an ordered list of byte sequences.
pub open spec fn hash_files(h: u64, files: Seq<Seq<u8>>) -> u64
    decreases files.len(),
{
    if files.len() == 0 {
        h
    } else {
        hash_bytes(hash_files(h, files.drop_last()), files.last())
    }
}

/// The 64-bit fingerprint of an ordered list of file contents. Identical
/// contents in identical order give the identical fingerprint.
pub open spec fn fingerprint_of(files: Seq<Seq<u8>>) -> u64 {
    hash_files(HASH_INIT, files)
}

/// View of a list of byte vectors as a list of byte sequences.
pub open spec fn byte_views(files: Seq<Vec<u8>>) -> Seq<Seq<u8>> {
    files.map_values(|f: Vec<u8>| f@)
}

/// The hexadecimal digit of a value below sixteen.
pub open spec fn hex_digit(d: u64) -> char {
    seq!['0', '1', '2', '3', '4', '5', '6', '7', '8', '9', 'a', 'b', 'c', 'd', 'e', 'f'][d as int]
}

/// Lowercase hexadecimal of `v`, most significant digit first, without
/// leading zeroes (zero itself is "0").
pub open spec fn hex_of(v: u64) -> Seq<char>
    decreases v,
{
    if v < 16 {
        seq![hex_digit(v)]
    } else {
        hex_of(v / 16).push(hex_digit(v % 16))
    }
}

fn push_hex_digit(s: &mut String, d: u64)
    requires
        d < 16,
    ensures
        final(s)@ == old(s)@.push(hex_digit(d)),
{
    let piece: &str = if d == 0 {
        "0"
    } else if d == 1 {
        "1"
    } else if d == 2 {
        "2"
    } else if d == 3 {
        "3"
    } else if d == 4 {
        "4"
    } else if d == 5 {
        "5"
    } else if d == 6 {
        "6"
    } else if d == 7 {
        "7"
    } else if d == 8 {
        "8"
    } else if d == 9 {
        "9"
    } else if d == 10 {
        "a"
    } else if d == 11 {
        "b"
    } else if d == 12 {
        "c"
    } else if d == 13 {
        "d"
    } else if d == 14 {
        "e"
    } else {
        "f"
    };
    proof {
        reveal_strlit("0");
        reveal_strlit("1");
        reveal_strlit("2");
        reveal_strlit("3");
        reveal_strlit("4");
        reveal_strlit("5");
        reveal_strlit("6");
        reveal_strlit("7");
        reveal_strlit("8");
        reveal_strlit("9");
        reveal_strlit("a");
        reveal_strlit("b");
        reveal_strlit("c");
        reveal_strlit("d");
        reveal_strlit("e");
        reveal_strlit("f");
        assert(piece@ =~= seq![hex_digit(d)]);
    }
    s.append(piece);
    proof {
        assert(s@ =~= old(s)@.push(hex_digit(d)));
    }
}

/// Formats `v` as lowercase hexadecimal.
pub fn u64_to_hex(v: u64) -> (r: String)
    ensures
        r@ == hex_of(v),
    decreases v,
{
    if v < 16 {
        let mut r = String::new();
        push_hex_digit(&mut r, v);
        proof {
            assert(r@ =~= seq![hex_digit(v)]);
        }
        r
    } else {
        let mut r = u64_to_hex(v / 16);
        push_hex_digit(&mut r, v % 16);
        r
    }
}

/// Law: fingerprinting is deterministic. Two file lists that hold the
/// same bytes in the same order — whatever vessels carry them — yield
/// the same digest string, so an artifact's name can be reproduced from
/// its sources alone.
pub proof fn lemma_fingerprint_deterministic(a: Seq<Vec<u8>>, b: Seq<Vec<u8>>)
    requires
        byte_views(a) == byte_views(b),
    ensures
        hex_of(fingerprint_of(byte_views(a))) == hex_of(fingerprint_of(byte_views(b))),
{
}

/// Fingerprints an ordered list of file contents: every byte of every
/// file, in the given order, is folded into a 64-bit accumulator, which
/// is returned as a lowercase hexadecimal string. The result depends on
/// the contents and their order alone.
pub fn create_hash(files: &Vec<Vec<u8>>) -> (r: String)
    ensures
        r@ == hex_of(fingerprint_of(byte_views(files@))),
{
    let mut h: u64 = HASH_INIT;
    let nf = files.len();
    let mut i: usize = 0;
    proof {
        assert(byte_views(files@).subrange(0, 0) =~~= Seq::<Seq<u8>>::empty());
    }
    while i < nf
        invariant
            nf == files@.len(),
            i <= nf,
            h == hash_files(HASH_INIT, byte_views(files@).subrange(0, i as int)),
        decreases nf - i,
    {
        let file = &files[i];
        let nb = file.len();
        let ghost h0 = h;
        let mut j: usize = 0;
        proof {
            assert(file@.subrange(0, 0) =~= Seq::<u8>::empty());
        }
        while j < nb
            invariant
                nb == file@.len(),
                j <= nb,
                h == hash_bytes(h0, file@.subrange(0, j as int)),
            decreases nb - j,
        {
            let b = file[j];
            h = (h ^ (u64::MAX - (b as u64))).wrapping_mul(HASH_PRIME);
            proof {
                assert(file@.subrange(0, j + 1).drop_last() =~= file@.subrange(0, j as int));
                assert(file@.subrange(0, j + 1).last() == b);
            }
            j += 1;
        }
        proof {
            assert(file@.subrange(0, nb as int) =~= file@);
            assert(byte_views(files@).subrange(0, i + 1).drop_last() =~~= byte_views(
                files@,
            ).subrange(0, i as int));
            assert(byte_views(files@).subrange(0, i + 1).last() == file@);
        }
        i += 1;
    }
    proof {
        assert(byte_views(files@).subrange(0, nf as int) =~~= byte_views(files@));
    }
    u64_to_hex(h)
}

} // verus!
