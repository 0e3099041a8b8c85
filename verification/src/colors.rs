//! Parsing of the palette override: up to four comma-separated
//! hexadecimal color codes.

use vstd::prelude::*;
use vstd::string::StringSliceAdditionalSpecFns;

verus! {

/// ASCII comma.
pub const COMMA: u8 = 44;

/// Whether a byte is an ASCII hexadecimal digit.
pub open spec fn is_hex_digit(b: u8) -> bool {
    (48 <= b <= 57) || (97 <= b <= 102) || (65 <= b <= 70)
}

/// The value of one ASCII hexadecimal digit.
pub open spec fn hex_digit_val(b: u8) -> int {
    if 48 <= b <= 57 {
        b - 48
    } else if 97 <= b <= 102 {
        b - 87
    } else if 65 <= b <= 70 {
        b - 55
    } else {
        0
    }
}

/// The number a sequence of hexadecimal digits denotes, most significant
/// first.
pub open spec fn hex_value(s: Seq<u8>) -> int
    decreases s.len(),
{
    if s.len() == 0 {
        0
    } else {
        hex_value(s.drop_last()) * 16 + hex_digit_val(s.last())
    }
}

/// A color code: nonempty, all hexadecimal digits, small enough for a
/// 32-bit color.
pub open spec fn valid_color(s: Seq<u8>) -> bool {
    &&& s.len() > 0
    &&& forall|i: int| 0 <= i < s.len() ==> is_hex_digit(#[trigger] s[i])
    &&& hex_value(s) <= 0xFFFF_FFFF
}

/// The index of the first comma at or after `i`, or the length when the
/// rest holds none.
pub open spec fn find_comma(s: Seq<u8>, i: int) -> int
    recommends
        0 <= i <= s.len(),
    decreases s.len() - i,
{
    if i < 0 || i >= s.len() {
        s.len() as int
    } else if s[i] == COMMA {
        i
    } else {
        find_comma(s, i + 1)
    }
}

/// The palette entries denoted by the comma-separated color codes of
/// `s[from..]`, written into `acc` from slot `idx` on: at most four
/// segments are read, later ones are ignored, unfilled slots keep their
/// value, and a malformed segment makes the whole input invalid.
pub open spec fn parse_colors_from(s: Seq<u8>, from: int, idx: int, acc: Seq<u32>) -> Option<
    Seq<u32>,
>
    recommends
        0 <= from <= s.len(),
        0 <= idx < 4,
        acc.len() == 4,
    decreases 4 - idx,
{
    let c = find_comma(s, from);
    let seg = s.subrange(from, c);
    if !valid_color(seg) {
        None
    } else {
        let acc2 = acc.update(idx, hex_value(seg) as u32);
        if c >= s.len() || idx >= 3 {
            Some(acc2)
        } else {
            parse_colors_from(s, c + 1, idx + 1, acc2)
        }
    }
}

/// The palette denoted by a full override string, starting from four
/// zero entries.
pub open spec fn parse_colors_spec(s: Seq<u8>) -> Option<Seq<u32>> {
    parse_colors_from(s, 0, 0, seq![0u32, 0u32, 0u32, 0u32])
}

/// A digit value is a nibble.
proof fn lemma_hex_digit_bound(b: u8)
    ensures
        0 <= hex_digit_val(b) < 16,
{
}

/// Extending a digit string multiplies its value by 16 and adds the new
/// digit; in particular the value never shrinks and never goes negative.
proof fn lemma_hex_value_push(s: Seq<u8>, b: u8)
    ensures
        hex_value(s.push(b)) == hex_value(s) * 16 + hex_digit_val(b),
{
    assert(s.push(b).drop_last() =~= s);
    assert(s.push(b).last() == b);
}

/// Once a digit prefix exceeds the 32-bit range, every extension does.
proof fn lemma_hex_value_grows(s: Seq<u8>, k: int)
    requires
        0 <= k <= s.len(),
        hex_value(s.subrange(0, k)) > 0xFFFF_FFFF,
    ensures
        hex_value(s) > 0xFFFF_FFFF,
    decreases s.len() - k,
{
    if k == s.len() {
        assert(s.subrange(0, k) =~= s);
    } else {
        let p = s.subrange(0, k);
        let q = s.subrange(0, k + 1);
        assert(q =~= p.push(s[k]));
        lemma_hex_value_push(p, s[k]);
        lemma_hex_digit_bound(s[k]);
        assert(hex_value(p) * 16 > 0xFFFF_FFFF) by (nonlinear_arith)
            requires
                hex_value(p) > 0xFFFF_FFFF,
        ;
        lemma_hex_value_grows(s, k + 1);
    }
}

/// Parses one color segment `s[from..to]` (no commas inside): its value,
/// or `None` when it is empty, holds a non-digit, or exceeds 32 bits.
fn parse_segment(s: &[u8], from: usize, to: usize) -> (r: Option<u32>)
    requires
        from <= to <= s@.len(),
    ensures
        r is Some <==> valid_color(s@.subrange(from as int, to as int)),
        r is Some ==> r->0 == hex_value(s@.subrange(from as int, to as int)),
{
    let ghost seg = s@.subrange(from as int, to as int);
    if from == to {
        return None;
    }
    let mut val: u64 = 0;
    let mut k: usize = from;
    while k < to
        invariant
            from <= k <= to <= s@.len(),
            seg == s@.subrange(from as int, to as int),
            val == hex_value(seg.subrange(0, k - from)),
            val <= 0xFFFF_FFFF,
            forall|i: int| 0 <= i < k - from ==> is_hex_digit(#[trigger] seg[i]),
        decreases to - k,
    {
        let b: u8 = s[k];
        let d: u64 = if 48 <= b && b <= 57 {
            (b - 48) as u64
        } else if 97 <= b && b <= 102 {
            (b - 87) as u64
        } else if 65 <= b && b <= 70 {
            (b - 55) as u64
        } else {
            proof {
                assert(seg[k - from as int] == s@[k as int]);
                assert(!is_hex_digit(seg[k - from as int]));
            }
            return None;
        };
        proof {
            let pk = seg.subrange(0, k - from as int);
            let pk1 = seg.subrange(0, k + 1 - from as int);
            assert(pk1 =~= pk.push(seg[k - from as int]));
            lemma_hex_value_push(pk, seg[k - from as int]);
            assert(seg[k - from as int] == s@[k as int]);
        }
        let next: u64 = val * 16 + d;
        if next > 0xFFFF_FFFF {
            proof {
                lemma_hex_value_grows(seg, k + 1 - from as int);
            }
            return None;
        }
        val = next;
        k += 1;
    }
    proof {
        assert(seg.subrange(0, to - from as int) =~= seg);
    }
    Some(val as u32)
}

/// Parses a palette override of up to four comma-separated hexadecimal
/// color codes into a 4-entry palette; unnamed entries stay zero, and any
/// malformed code rejects the whole string.
pub fn parse_colors(input: &str) -> (r: Option<[u32; 4]>)
    ensures
        r is Some <==> parse_colors_spec(input.spec_bytes()) is Some,
        r is Some ==> r->0@ == parse_colors_spec(input.spec_bytes())->0,
{
    let bytes: &[u8] = input.as_bytes();
    let n: usize = bytes.len();
    let mut colors: [u32; 4] = [0, 0, 0, 0];
    let mut from: usize = 0;
    let mut idx: usize = 0;
    proof {
        assert(colors@ =~= seq![0u32, 0u32, 0u32, 0u32]);
    }
    loop
        invariant
            bytes@ == input.spec_bytes(),
            n == bytes@.len(),
            from <= n,
            idx < 4,
            colors@.len() == 4,
            parse_colors_spec(input.spec_bytes()) == parse_colors_from(
                bytes@,
                from as int,
                idx as int,
                colors@,
            ),
        decreases n - from, 4 - idx,
    {
        let mut c: usize = from;
        while c < n && bytes[c] != COMMA
            invariant
                from <= c <= n,
                n == bytes@.len(),
                find_comma(bytes@, from as int) == find_comma(bytes@, c as int),
            decreases n - c,
        {
            c += 1;
        }
        proof {
            assert(find_comma(bytes@, from as int) == c);
        }
        let seg_val: Option<u32> = parse_segment(bytes, from, c);
        match seg_val {
            None => {
                return None;
            },
            Some(v) => {
                colors[idx] = v;
                if c >= n || idx >= 3 {
                    return Some(colors);
                }
                from = c + 1;
                idx = idx + 1;
            },
        }
    }
}

} // verus!
