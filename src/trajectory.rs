use vstd::prelude::*;
use crate::lattice::{Lattice, flippable, lemma_index_bounds, spin_in};

verus! {

/// The decimal digits of `n`, most significant first, as ASCII.
pub open spec fn digits(n: nat) -> Seq<u8>
    decreases n,
{
    if n < 10 {
        seq![(48 + n) as u8]
    } else {
        digits(n / 10) + seq![(48 + n % 10) as u8]
    }
}

/// A spin as decimal ASCII text, with a leading `-` when negative.
pub open spec fn spin_text(v: int) -> Seq<u8> {
    if v < 0 {
        seq![45u8] + digits((-v) as nat)
    } else {
        digits(v as nat)
    }
}

/// The first `k` spins of row `y`, each followed by a comma.
pub open spec fn row_text(c: Seq<i8>, cols: nat, y: int, k: int) -> Seq<u8>
    decreases k,
{
    if k <= 0 {
        seq![]
    } else {
        row_text(c, cols, y, k - 1) + spin_text(spin_in(c, cols, y, k - 1) as int) + seq![44u8]
    }
}

/// The first `m` rows of a lattice as CSV lines: every spin followed by a
/// comma, every row by a newline.
pub open spec fn block_text(c: Seq<i8>, cols: nat, m: int) -> Seq<u8>
    decreases m,
{
    if m <= 0 {
        seq![]
    } else {
        block_text(c, cols, m - 1) + row_text(c, cols, m - 1, cols as int) + seq![10u8]
    }
}

/// Appends the decimal text of `v` to `out`.
fn push_spin(out: &mut Vec<u8>, v: i8)
    ensures
        final(out)@ == old(out)@ + spin_text(v as int),
{
    let m: u8 = if v < 0 {
        out.push(45u8);
        (-(v as i16)) as u8
    } else {
        v as u8
    };
    let ghost start = out@;
    proof {
        reveal_with_fuel(digits, 3);
    }
    if m >= 100 {
        out.push(48u8 + m / 100);
    }
    if m >= 10 {
        out.push(48u8 + (m / 10) % 10);
    }
    out.push(48u8 + m % 10);
    proof {
        let n = m as nat;
        if n >= 100 {
            assert(n / 10 / 10 == n / 100);
            assert(digits(n / 10) == digits(n / 100) + seq![(48 + (n / 10) % 10) as u8]);
        }
        assert(out@ =~= start + digits(n));
    }
}

/// One spin's text followed by its comma.
pub open spec fn token(v: i8) -> Seq<u8> {
    spin_text(v as int) + seq![44u8]
}

/// Whether the bytes of `s` from `pos` on begin with the token of `v`.
pub open spec fn token_at(s: Seq<u8>, pos: int, v: i8) -> bool {
    0 <= pos && pos + token(v).len() <= s.len() && s.subrange(pos, pos + token(v).len()) == token(v)
}

pub open spec fn is_digit(c: u8) -> bool {
    48 <= c <= 57
}

proof fn lemma_digits_small(m: nat)
    requires
        m < 1000,
    ensures
        m < 10 ==> digits(m) == seq![(48 + m) as u8],
        10 <= m < 100 ==> digits(m) == seq![(48 + m / 10) as u8, (48 + m % 10) as u8],
        100 <= m ==> digits(m) == seq![(48 + m / 100) as u8, (48 + (m / 10) % 10) as u8, (48 + m % 10) as u8],
{
    reveal_with_fuel(digits, 3);
    if m >= 100 {
        assert(m / 10 / 10 == m / 100);
        assert(digits(m / 10) =~= seq![(48 + m / 100) as u8, (48 + (m / 10) % 10) as u8]);
        assert(digits(m) =~= seq![(48 + m / 100) as u8, (48 + (m / 10) % 10) as u8, (48 + m % 10) as u8]);
    } else if m >= 10 {
        assert(digits(m) =~= seq![(48 + m / 10) as u8, (48 + m % 10) as u8]);
    }
}

/// The bytes of a token found at `pos`, by the number of digits of the spin.
proof fn lemma_token_bytes(s: Seq<u8>, pos: int, v: i8)
    requires
        token_at(s, pos, v),
    ensures
        ({
            let a: int = if v < 0 { -v } else { v as int };
            let o: int = if v < 0 { 1 } else { 0 };
            &&& v < 0 ==> s[pos] == 45u8
            &&& v >= 0 ==> is_digit(s[pos])
            &&& a < 10 ==> s[pos + o] == 48 + a && s[pos + o + 1] == 44u8 && token(v).len() == o + 2
            &&& 10 <= a < 100 ==> s[pos + o] == 48 + a / 10 && s[pos + o + 1] == 48 + a % 10 && s[pos + o
                + 2] == 44u8 && token(v).len() == o + 3
            &&& 100 <= a ==> s[pos + o] == 48 + a / 100 && s[pos + o + 1] == 48 + (a / 10) % 10 && s[pos
                + o + 2] == 48 + a % 10 && s[pos + o + 3] == 44u8 && token(v).len() == o + 4
        }),
{
    let t = token(v);
    let a: nat = if v < 0 { (-v) as nat } else { v as nat };
    let o: int = if v < 0 { 1 } else { 0 };
    lemma_digits_small(a);
    let s0: Seq<u8> = if v < 0 { seq![45u8] } else { seq![] };
    assert(t =~= s0 + digits(a) + seq![44u8]);
    assert forall|j: int| 0 <= j < t.len() implies s[pos + j] == #[trigger] t[j] by {
        assert(s.subrange(pos, pos + t.len())[j] == t[j]);
    }
    let d1 = (48 + a / 100) as u8;
    let d2 = (48 + (a / 10) % 10) as u8;
    let d3 = (48 + a % 10) as u8;
    let e1 = (48 + a / 10) as u8;
    if a < 10 {
        assert(t =~= s0 + seq![d3, 44u8]);
        assert(t[o] == d3 && t[o + 1] == 44u8);
        assert(s[pos + o] == t[o] && s[pos + o + 1] == t[o + 1] && s[pos] == t[0]);
    } else if a < 100 {
        assert(t =~= s0 + seq![e1, d3, 44u8]);
        assert(t[o] == e1 && t[o + 1] == d3 && t[o + 2] == 44u8);
        assert(s[pos + o] == t[o] && s[pos + o + 1] == t[o + 1] && s[pos + o + 2] == t[o + 2] && s[pos] == t[0]);
    } else {
        assert(t =~= s0 + seq![d1, d2, d3, 44u8]);
        assert(t[o] == d1 && t[o + 1] == d2 && t[o + 2] == d3 && t[o + 3] == 44u8);
        assert(s[pos + o] == t[o] && s[pos + o + 1] == t[o + 1] && s[pos + o + 2] == t[o + 2] && s[pos + o + 3] == t[o
            + 3] && s[pos] == t[0]);
    }
}

/// Reads up to three decimal digits from `i` on. Returns their value and the
/// position just past them.
fn read_digits(b: &Vec<u8>, i: usize) -> (r: (u16, usize))
    ensures
        i <= r.1 <= i + 3,
        r.1 == i ==> !(i < b@.len() && is_digit(b@[i as int])),
        ({
            let s = b@;
            let (m, e) = r;
            &&& (i < s.len() && is_digit(s[i as int]) && !(i + 1 < s.len() && is_digit(s[i + 1]))) ==> e == i + 1
                && m == s[i as int] - 48
            &&& (i + 1 < s.len() && is_digit(s[i as int]) && is_digit(s[i + 1]) && !(i + 2 < s.len() && is_digit(
                s[i + 2],
            ))) ==> e == i + 2 && m == 10 * (s[i as int] - 48) + (s[i + 1] - 48)
            &&& (i + 2 < s.len() && is_digit(s[i as int]) && is_digit(s[i + 1]) && is_digit(s[i + 2])) ==> e == i
                + 3 && m == 100 * (s[i as int] - 48) + 10 * (s[i + 1] - 48) + (s[i + 2] - 48)
        }),
{
    let n = b.len();
    if i < n && 48u8 <= b[i] && b[i] <= 57u8 {
        let d1 = (b[i] - 48u8) as u16;
        if i + 1 < n && 48u8 <= b[i + 1] && b[i + 1] <= 57u8 {
            let d2 = (b[i + 1] - 48u8) as u16;
            if i + 2 < n && 48u8 <= b[i + 2] && b[i + 2] <= 57u8 {
                let d3 = (b[i + 2] - 48u8) as u16;
                (d1 * 100 + d2 * 10 + d3, i + 3)
            } else {
                (d1 * 10 + d2, i + 2)
            }
        } else {
            (d1, i + 1)
        }
    } else {
        (0, i)
    }
}

/// Reads the token at `pos`: a spin in canonical decimal followed by a comma.
/// Returns the spin and the position just past the comma.
#[verifier::rlimit(30)]
fn parse_token(b: &Vec<u8>, pos: usize) -> (r: Option<(i8, usize)>)
    ensures
        r matches Some((v, e)) ==> e == pos + token(v).len() && token_at(b@, pos as int, v),
        forall|v: i8| #[trigger] token_at(b@, pos as int, v) ==> r == Some((v, (pos + token(v).len()) as usize)),
{
    let n = b.len();
    if pos >= n {
        return None;
    }
    let neg = b[pos] == 45u8;
    let i: usize = if neg {
        pos + 1
    } else {
        pos
    };
    let i0 = i;
    let (m, i) = read_digits(b, i0);
    let count = i - i0;
    proof {
        assert forall|v: i8| #[trigger] token_at(b@, pos as int, v) implies {
            &&& count > 0
            &&& i < n
            &&& b@[i as int] == 44u8
            &&& (if neg { v < 0 && m == -v } else { v >= 0 && m == v })
            &&& i + 1 == pos + token(v).len()
        } by {
            lemma_token_bytes(b@, pos as int, v);
            assert(neg == (v < 0));
        }
    }
    if count == 0 || i >= n || b[i] != 44u8 {
        return None;
    }
    let v: i8 = if neg {
        if m > 128 {
            return None;
        }
        (-(m as i16)) as i8
    } else {
        if m > 127 {
            return None;
        }
        m as i8
    };
    let e = i + 1;
    assert(forall|w: i8| #[trigger] token_at(b@, pos as int, w) ==> w == v);
    let mut t: Vec<u8> = Vec::new();
    push_spin(&mut t, v);
    t.push(44u8);
    assert(t@ =~= token(v));
    if t.len() != e - pos {
        return None;
    }
    let mut k: usize = 0;
    while k < t.len()
        invariant
            n == b@.len(),
            t@ == token(v),
            e <= n,
            t@.len() == e - pos,
            0 <= k <= t@.len(),
            forall|j: int| 0 <= j < k ==> #[trigger] t@[j] == b@[pos + j],
            forall|w: i8| #[trigger] token_at(b@, pos as int, w) ==> w == v,
        decreases t@.len() - k,
    {
        if t[k] != b[pos + k] {
            proof {
                assert forall|w: i8| !#[trigger] token_at(b@, pos as int, w) by {
                    if token_at(b@, pos as int, w) {
                        assert(b@.subrange(pos as int, e as int)[k as int] == t@[k as int]);
                    }
                }
            }
            return None;
        }
        k = k + 1;
    }
    assert(b@.subrange(pos as int, e as int) =~= t@);
    Some((v, e))
}

/// The row-major cells `c` of a `rows` by `cols` lattice as one CSV block.
pub fn render_block(c: &Vec<i8>, rows: usize, cols: usize) -> (r: Vec<u8>)
    requires
        c@.len() == rows * cols,
    ensures
        r@ == block_text(c@, cols as nat, rows as int),
{
    let n = c.len();
    let mut out: Vec<u8> = Vec::new();
    let mut y: usize = 0;
    while y < rows
        invariant
            c@.len() == rows * cols,
            n == c@.len(),
            0 <= y <= rows,
            out@ == block_text(c@, cols as nat, y as int),
        decreases rows - y,
    {
        let mut x: usize = 0;
        while x < cols
            invariant
                c@.len() == rows * cols,
                n == c@.len(),
                0 <= y < rows,
                0 <= x <= cols,
                out@ == block_text(c@, cols as nat, y as int) + row_text(c@, cols as nat, y as int, x as int),
            decreases cols - x,
        {
            proof {
                lemma_index_bounds(y as int, x as int, rows as int, cols as int);
            }
            push_spin(&mut out, c[y * cols + x]);
            out.push(44u8);
            proof {
                assert(out@ =~= block_text(c@, cols as nat, y as int) + row_text(c@, cols as nat, y as int, x + 1));
            }
            x = x + 1;
        }
        out.push(10u8);
        proof {
            assert(out@ =~= block_text(c@, cols as nat, y + 1));
        }
        y = y + 1;
    }
    out
}

/// Whether `p` is a prefix of `s`.
pub open spec fn is_prefix(p: Seq<u8>, s: Seq<u8>) -> bool {
    p.len() <= s.len() && s.subrange(0, p.len() as int) == p
}

proof fn lemma_prefix_trans(a: Seq<u8>, b: Seq<u8>, c: Seq<u8>)
    requires
        is_prefix(a, b),
        is_prefix(b, c),
    ensures
        is_prefix(a, c),
{
    assert(c.subrange(0, a.len() as int) =~= b.subrange(0, a.len() as int));
}

proof fn lemma_prefix_extend(a: Seq<u8>, p: Seq<u8>, q: Seq<u8>)
    requires
        is_prefix(p, q),
    ensures
        is_prefix(a + p, a + q),
{
    assert((a + q).subrange(0, (a + p).len() as int) =~= a + p);
}

proof fn lemma_prefix_concat(a: Seq<u8>, p: Seq<u8>)
    ensures
        is_prefix(a, a + p),
{
    assert((a + p).subrange(0, a.len() as int) =~= a);
}

proof fn lemma_row_prefix(c: Seq<i8>, cols: nat, y: int, k: int, m: int)
    requires
        0 <= k <= m,
    ensures
        is_prefix(row_text(c, cols, y, k), row_text(c, cols, y, m)),
    decreases m - k,
{
    if k == m {
        assert(row_text(c, cols, y, m).subrange(0, row_text(c, cols, y, m).len() as int) =~= row_text(c, cols, y, m));
    } else {
        lemma_row_prefix(c, cols, y, k, m - 1);
        lemma_prefix_concat(row_text(c, cols, y, m - 1), spin_text(spin_in(c, cols, y, m - 1) as int) + seq![44u8]);
        assert(row_text(c, cols, y, m) =~= row_text(c, cols, y, m - 1) + (spin_text(spin_in(c, cols, y, m - 1) as int)
            + seq![44u8]));
        lemma_prefix_trans(row_text(c, cols, y, k), row_text(c, cols, y, m - 1), row_text(c, cols, y, m));
    }
}

proof fn lemma_block_prefix(c: Seq<i8>, cols: nat, y: int, m: int)
    requires
        0 <= y <= m,
    ensures
        is_prefix(block_text(c, cols, y), block_text(c, cols, m)),
    decreases m - y,
{
    if y == m {
        assert(block_text(c, cols, m).subrange(0, block_text(c, cols, m).len() as int) =~= block_text(c, cols, m));
    } else {
        lemma_block_prefix(c, cols, y, m - 1);
        let tail = row_text(c, cols, m - 1, cols as int) + seq![10u8];
        lemma_prefix_concat(block_text(c, cols, m - 1), tail);
        assert(block_text(c, cols, m) =~= block_text(c, cols, m - 1) + tail);
        lemma_prefix_trans(block_text(c, cols, y), block_text(c, cols, m - 1), block_text(c, cols, m));
    }
}

/// The text up to and including the token of site `(y, x)` begins the block.
proof fn lemma_token_in_block(c: Seq<i8>, cols: nat, rows: int, y: int, x: int)
    requires
        0 <= y < rows,
        0 <= x < cols,
    ensures
        is_prefix(block_text(c, cols, y) + row_text(c, cols, y, x + 1), block_text(c, cols, rows)),
        row_text(c, cols, y, x + 1) == row_text(c, cols, y, x) + token(spin_in(c, cols, y, x)),
{
    let head = block_text(c, cols, y);
    lemma_row_prefix(c, cols, y, x + 1, cols as int);
    lemma_prefix_extend(head, row_text(c, cols, y, x + 1), row_text(c, cols, y, cols as int));
    let whole = row_text(c, cols, y, cols as int);
    lemma_prefix_concat(head + whole, seq![10u8]);
    assert(block_text(c, cols, y + 1) =~= (head + whole) + seq![10u8]);
    assert(head + whole =~= head + whole);
    lemma_prefix_trans(head + row_text(c, cols, y, x + 1), head + whole, block_text(c, cols, y + 1));
    lemma_block_prefix(c, cols, y + 1, rows);
    lemma_prefix_trans(head + row_text(c, cols, y, x + 1), block_text(c, cols, y + 1), block_text(c, cols, rows));
    assert(row_text(c, cols, y, x + 1) =~= row_text(c, cols, y, x) + token(spin_in(c, cols, y, x)));
}

/// The newline that ends row `y` begins the block with everything before it.
proof fn lemma_newline_in_block(c: Seq<i8>, cols: nat, rows: int, y: int)
    requires
        0 <= y < rows,
    ensures
        is_prefix(block_text(c, cols, y + 1), block_text(c, cols, rows)),
        block_text(c, cols, y + 1) == block_text(c, cols, y) + row_text(c, cols, y, cols as int) + seq![10u8],
{
    lemma_block_prefix(c, cols, y + 1, rows);
}

proof fn lemma_token_from_prefix(x: Seq<u8>, v: i8, b: Seq<u8>)
    requires
        is_prefix(x + token(v), b),
    ensures
        token_at(b, x.len() as int, v),
{
    let t = token(v);
    assert(b.subrange(x.len() as int, (x.len() + t.len()) as int) =~= (x + t).subrange(x.len() as int, (x.len() + t.len()) as int));
    assert((x + t).subrange(x.len() as int, (x.len() + t.len()) as int) =~= t);
}

/// Whether `b` begins with the CSV block of the row-major cells `c` of a
/// `rows` by `cols` lattice.
pub open spec fn begins_with_block(b: Seq<u8>, c: Seq<i8>, rows: nat, cols: nat) -> bool {
    c.len() == rows * cols && is_prefix(block_text(c, cols, rows as int), b)
}

/// Reads one CSV block of a `rows` by `cols` lattice from the start of `b`,
/// as written by `render_block`; what follows the block is not read. Returns
/// the spins in row-major order, or `None` when `b` does not begin with such
/// a block.
pub fn parse_block(b: &Vec<u8>, rows: usize, cols: usize) -> (r: Option<Vec<i8>>)
    ensures
        r matches Some(v) ==> v@.len() == rows * cols && is_prefix(block_text(v@, cols as nat, rows as int), b@),
        forall|c: Seq<i8>| #[trigger] begins_with_block(b@, c, rows as nat, cols as nat) ==> (r matches Some(v) && v@ == c),
{
    let mut v: Vec<i8> = Vec::new();
    let mut pos: usize = 0;
    let mut y: usize = 0;
    while y < rows
        invariant
            0 <= y <= rows,
            v@.len() == y * cols,
            forall|c: Seq<i8>| #[trigger] begins_with_block(b@, c, rows as nat, cols as nat) ==> v@ == c.subrange(0, y * cols) && pos == block_text(
                c,
                cols as nat,
                y as int,
            ).len(),
        decreases rows - y,
    {
        let mut x: usize = 0;
        while x < cols
            invariant
                0 <= y < rows,
                0 <= x <= cols,
                v@.len() == y * cols + x,
                    forall|c: Seq<i8>| #[trigger] begins_with_block(b@, c, rows as nat, cols as nat) ==> v@ == c.subrange(0, y * cols + x) && pos == (block_text(
                    c,
                    cols as nat,
                    y as int,
                ) + row_text(c, cols as nat, y as int, x as int)).len(),
            decreases cols - x,
        {
            let ghost before = v@;
            proof {
                assert forall|c: Seq<i8>| #[trigger] begins_with_block(b@, c, rows as nat, cols as nat) implies token_at(
                    b@,
                    pos as int,
                    spin_in(c, cols as nat, y as int, x as int),
                ) by {
                    lemma_token_in_block(c, cols as nat, rows as int, y as int, x as int);
                    let head = block_text(c, cols as nat, y as int) + row_text(c, cols as nat, y as int, x as int);
                    let t = token(spin_in(c, cols as nat, y as int, x as int));
                    assert(block_text(c, cols as nat, y as int) + row_text(c, cols as nat, y as int, x + 1) =~= head + t);
                    lemma_prefix_trans(head + t, block_text(c, cols as nat, rows as int), b@);
                    lemma_token_from_prefix(head, spin_in(c, cols as nat, y as int, x as int), b@);
                }
            }
            match parse_token(b, pos) {
                None => {
                    proof {
                        assert forall|c: Seq<i8>| !#[trigger] begins_with_block(b@, c, rows as nat, cols as nat) by {
                            if begins_with_block(b@, c, rows as nat, cols as nat) {
                                assert(token_at(b@, pos as int, spin_in(c, cols as nat, y as int, x as int)));
                            }
                        }
                    }
                    return None;
                },
                Some((s, e)) => {
                    v.push(s);
                    proof {
                        assert forall|c: Seq<i8>| #[trigger] begins_with_block(b@, c, rows as nat, cols as nat) implies v@ == c.subrange(0, y * cols + x + 1)
                            && e == (block_text(c, cols as nat, y as int) + row_text(c, cols as nat, y as int, x + 1)).len() by {
                            assert(token_at(b@, pos as int, spin_in(c, cols as nat, y as int, x as int)));
                            lemma_token_in_block(c, cols as nat, rows as int, y as int, x as int);
                            lemma_index_bounds(y as int, x as int, rows as int, cols as int);
                            assert(v@ =~= c.subrange(0, y * cols + x + 1));
                        }
                    }
                    pos = e;
                },
            }
            x = x + 1;
        }
        if pos >= b.len() || b[pos] != 10u8 {
            proof {
                assert forall|c: Seq<i8>| !#[trigger] begins_with_block(b@, c, rows as nat, cols as nat) by {
                    if begins_with_block(b@, c, rows as nat, cols as nat) {
                        lemma_newline_in_block(c, cols as nat, rows as int, y as int);
                        let head = block_text(c, cols as nat, y as int) + row_text(c, cols as nat, y as int, cols as int);
                        lemma_prefix_trans(block_text(c, cols as nat, y + 1), block_text(c, cols as nat, rows as int), b@);
                        assert(b@.subrange(0, (head.len() + 1) as int)[head.len() as int] == 10u8);
                    }
                }
            }
            return None;
        }
        pos = pos + 1;
        proof {
            assert forall|c: Seq<i8>| #[trigger] begins_with_block(b@, c, rows as nat, cols as nat) implies v@ == c.subrange(0, (y + 1) * cols) && pos == block_text(
                c,
                cols as nat,
                y + 1,
            ).len() by {
                lemma_newline_in_block(c, cols as nat, rows as int, y as int);
                assert((y + 1) * cols == y * cols + cols) by (nonlinear_arith);
            }
            assert((y + 1) * cols == y * cols + cols) by (nonlinear_arith);
        }
        y = y + 1;
    }
    proof {
        assert forall|c: Seq<i8>| #[trigger] begins_with_block(b@, c, rows as nat, cols as nat) implies v@ == c by {
            assert(c.subrange(0, rows * cols) =~= c);
        }
    }
    let text = render_block(&v, rows, cols);
    if text.len() > b.len() {
        proof {
            assert forall|c: Seq<i8>| !#[trigger] begins_with_block(b@, c, rows as nat, cols as nat) by {
                if begins_with_block(b@, c, rows as nat, cols as nat) {
                    assert(v@ =~= c);
                }
            }
        }
        return None;
    }
    let mut k: usize = 0;
    while k < text.len()
        invariant
            text@ == block_text(v@, cols as nat, rows as int),
            text@.len() <= b@.len(),
            0 <= k <= text@.len(),
            forall|j: int| 0 <= j < k ==> #[trigger] text@[j] == b@[j],
            v@.len() == rows * cols,
            forall|c: Seq<i8>| #[trigger] begins_with_block(b@, c, rows as nat, cols as nat) ==> v@ == c,
        decreases text@.len() - k,
    {
        if text[k] != b[k] {
            proof {
                assert forall|c: Seq<i8>| !#[trigger] begins_with_block(b@, c, rows as nat, cols as nat) by {
                    if begins_with_block(b@, c, rows as nat, cols as nat) {
                        assert(v@ =~= c);
                        assert(b@.subrange(0, text@.len() as int)[k as int] == text@[k as int]);
                    }
                }
            }
            return None;
        }
        k = k + 1;
    }
    proof {
        assert(b@.subrange(0, text@.len() as int) =~= text@);
        assert forall|c: Seq<i8>| #[trigger] begins_with_block(b@, c, rows as nat, cols as nat) implies v@ == c by {
            assert(v@ =~= c);
        }
    }
    Some(v)
}

/// A trajectory whose first block was written from the cells `c` is read back
/// as exactly `c` by `parse_block`, whatever blocks follow it.
pub proof fn lemma_first_block_reads_back(c: Seq<i8>, rows: nat, cols: nat, rest: Seq<u8>)
    requires
        c.len() == rows * cols,
    ensures
        begins_with_block(block_text(c, cols, rows as int) + rest, c, rows, cols),
{
    lemma_prefix_concat(block_text(c, cols, rows as int), rest);
}

/// A trajectory whose first block was written from the lattice `l` meets
/// every condition under which `Lattice::from_csv` returns a lattice with
/// exactly `l`'s spins, whatever blocks follow it.
pub proof fn lemma_lattice_reads_back(l: Lattice, rest: Seq<u8>)
    requires
        l.wf(),
    ensures
        begins_with_block(block_text(l.cells(), l.n_cols(), l.n_rows() as int) + rest, l.cells(), l.n_rows(), l.n_cols()),
        l.n_rows() > 0,
        l.n_cols() > 0,
        l.n_rows() * l.n_cols() <= isize::MAX,
        forall|i: int| 0 <= i < l.cells().len() ==> flippable(#[trigger] l.cells()[i]),
{
    l.lemma_wf();
    lemma_first_block_reads_back(l.cells(), l.n_rows(), l.n_cols(), rest);
}

impl Lattice {
    /// The lattice as one CSV block: `rows` lines, each listing the spins of
    /// one row, every spin followed by a comma.
    pub fn to_csv(&self) -> (r: Vec<u8>)
        requires
            self.wf(),
        ensures
            r@ == block_text(self.cells(), self.n_cols(), self.n_rows() as int),
    {
        proof {
            self.lemma_wf();
        }
        render_block(&self.snapshot(), self.rows(), self.cols())
    }
    /// Reads the first CSV block of `b` back into a `rows` by `cols`
    /// lattice. Returns `None` when the shape is refused, when `b` does not
    /// begin with such a block, or when a spin is `i8::MIN`.
    pub fn from_csv(b: &Vec<u8>, rows: usize, cols: usize) -> (r: Option<Lattice>)
        ensures
            r matches Some(l) ==> {
                &&& l.wf()
                &&& l.n_rows() == rows
                &&& l.n_cols() == cols
                &&& begins_with_block(b@, l.cells(), rows as nat, cols as nat)
            },
            forall|c: Seq<i8>|
                #[trigger] begins_with_block(b@, c, rows as nat, cols as nat) && rows > 0 && cols > 0 && rows * cols
                    <= isize::MAX && (forall|i: int| 0 <= i < c.len() ==> flippable(#[trigger] c[i])) ==> (r matches Some(
                    l,
                ) && l.cells() == c),
    {
        let v = match parse_block(b, rows, cols) {
            Some(v) => v,
            None => {
                return None;
            },
        };
        let mut l = match Lattice::new(vec![rows, cols]) {
            Ok(l) => l,
            Err(_) => {
                return None;
            },
        };
        proof {
            l.lemma_wf();
        }
        let mut y: usize = 0;
        while y < rows
            invariant
                l.wf(),
                l.n_rows() == rows,
                l.n_cols() == cols,
                l.cells().len() == rows * cols,
                v@.len() == rows * cols,
                begins_with_block(b@, v@, rows as nat, cols as nat),
                forall|c: Seq<i8>| #[trigger] begins_with_block(b@, c, rows as nat, cols as nat) ==> v@ == c,
                0 <= y <= rows,
                cols > 0,
                y * cols <= rows * cols,
                forall|i: int| 0 <= i < y * cols ==> #[trigger] l.cells()[i] == v@[i],
            decreases rows - y,
        {
            let mut x: usize = 0;
            while x < cols
                invariant
                    l.wf(),
                    l.n_rows() == rows,
                    l.n_cols() == cols,
                    l.cells().len() == rows * cols,
                    v@.len() == rows * cols,
                    begins_with_block(b@, v@, rows as nat, cols as nat),
                    forall|c: Seq<i8>| #[trigger] begins_with_block(b@, c, rows as nat, cols as nat) ==> v@ == c,
                    0 <= y < rows,
                    0 <= x <= cols,
                    cols > 0,
                    forall|i: int| 0 <= i < y * cols + x ==> #[trigger] l.cells()[i] == v@[i],
                decreases cols - x,
            {
                proof {
                    lemma_index_bounds(y as int, x as int, rows as int, cols as int);
                }
                let s = v[y * cols + x];
                if s == i8::MIN {
                    return None;
                }
                let ghost before = l.cells();
                let _ = l.set(y, x, s);
                proof {
                    l.lemma_wf();
                    assert forall|i: int| 0 <= i < y * cols + x + 1 implies #[trigger] l.cells()[i] == v@[i] by {
                        if i < y * cols + x {
                            assert(l.cells()[i] == before[i]);
                        }
                    }
                }
                x = x + 1;
            }
            proof {
                assert(y * cols + cols == (y + 1) * cols) by (nonlinear_arith);
                assert((y + 1) * cols <= rows * cols) by (nonlinear_arith)
                    requires
                        y + 1 <= rows,
                        cols > 0,
                ;
            }
            y = y + 1;
        }
        proof {
            assert(l.cells() =~= v@);
        }
        Some(l)
    }
}

} // verus!
