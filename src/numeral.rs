//! Digit strings: rendering integers as fixed-width or decimal numerals,
//! grouping them with a separator, and reading them back.
use vstd::arithmetic::power::pow;
use vstd::prelude::*;

verus! {

/// Numeric value of a hexadecimal digit character (either case); 16 for any
/// other character, so that `digit_value(c) < radix` tells whether `c` is a
/// digit of that radix (up to 16).
pub open spec fn digit_value(c: char) -> nat {
    if '0' <= c && c <= '9' {
        (c as int - '0' as int) as nat
    } else if 'a' <= c && c <= 'f' {
        (c as int - 'a' as int + 10) as nat
    } else if 'A' <= c && c <= 'F' {
        (c as int - 'A' as int + 10) as nat
    } else {
        16
    }
}

/// The lower-case character of the digit `d`, for `d < 16`.
pub open spec fn digit_char(d: nat) -> char {
    if d < 10 {
        ((d + 48) as u8) as char
    } else {
        ((d + 87) as u8) as char
    }
}

/// The last `n` digits of `x` in base `base`, most significant first.
pub open spec fn be_digits(x: nat, n: nat, base: nat) -> Seq<nat>
    decreases n,
{
    if n == 0 || base == 0 {
        Seq::empty()
    } else {
        be_digits(x / base, (n - 1) as nat, base).push(x % base)
    }
}

/// The number whose digits in base `base` are `d`, most significant first.
pub open spec fn from_be_digits(d: Seq<nat>, base: nat) -> nat
    decreases d.len(),
{
    if d.len() == 0 {
        0
    } else {
        from_be_digits(d.drop_last(), base) * base + d.last()
    }
}

/// The last `n` bytes of `x`, most significant first.
pub open spec fn be_bytes(x: nat, n: nat) -> Seq<u8> {
    be_digits(x, n, 256).map_values(|b: nat| b as u8)
}

/// The number whose bytes are `b`, most significant first.
pub open spec fn from_be_bytes(b: Seq<u8>) -> nat {
    from_be_digits(b.map_values(|v: u8| v as nat), 256)
}

/// `x` written with exactly `width` digits of base `radix`, zero-padded.
pub open spec fn fixed_text(x: nat, width: nat, radix: nat) -> Seq<char> {
    be_digits(x, width, radix).map_values(|d: nat| digit_char(d))
}

/// `x` written in decimal, without leading zeros.
pub open spec fn decimal_text(x: nat) -> Seq<char>
    decreases x,
{
    if x < 10 {
        seq![digit_char(x)]
    } else {
        decimal_text(x / 10).push(digit_char(x % 10))
    }
}

/// The parts, with `sep` between each two neighbours.
pub open spec fn join(parts: Seq<Seq<char>>, sep: char) -> Seq<char>
    decreases parts.len(),
{
    if parts.len() == 0 {
        Seq::empty()
    } else if parts.len() == 1 {
        parts[0]
    } else {
        join(parts.drop_last(), sep).push(sep) + parts.last()
    }
}

/// The last `groups` groups of `x` (each worth `group_base`), most significant
/// first, each written with `width` digits of base `radix`, joined with `sep`.
pub open spec fn grouped_text(
    x: nat,
    groups: nat,
    group_base: nat,
    width: nat,
    radix: nat,
    sep: char,
) -> Seq<char> {
    join(be_digits(x, groups, group_base).map_values(|g: nat| fixed_text(g, width, radix)), sep)
}

/// The last `groups` groups of `x` (each worth `group_base`), most significant
/// first, each written in decimal, joined with `sep`.
pub open spec fn grouped_decimal_text(x: nat, groups: nat, group_base: nat, sep: char) -> Seq<char> {
    join(be_digits(x, groups, group_base).map_values(|g: nat| decimal_text(g)), sep)
}

/// The pieces of `s` between occurrences of `sep`: `k` separators give
/// `k + 1` pieces, some of them possibly empty.
pub open spec fn split(s: Seq<char>, sep: char) -> Seq<Seq<char>>
    decreases s.len(),
{
    if s.len() == 0 {
        seq![Seq::empty()]
    } else {
        let parts = split(s.drop_last(), sep);
        if s.last() == sep {
            parts.push(Seq::empty())
        } else {
            parts.update(parts.len() - 1, parts.last().push(s.last()))
        }
    }
}

/// Every character of `g` is a digit of base `radix`.
pub open spec fn all_digits(g: Seq<char>, radix: nat) -> bool {
    forall|i: int| 0 <= i < g.len() ==> digit_value(#[trigger] g[i]) < radix
}

/// `sep` does not occur in `b`.
pub open spec fn free_of(b: Seq<char>, sep: char) -> bool {
    forall|i: int| 0 <= i < b.len() ==> b[i] != sep
}

/// The value of the numeral `g` in base `radix`.
pub open spec fn text_value(g: Seq<char>, radix: nat) -> nat
    decreases g.len(),
{
    if g.len() == 0 {
        0
    } else {
        text_value(g.drop_last(), radix) * radix + digit_value(g.last())
    }
}

/// The number whose digits in base `base` are the values of the numerals
/// `parts`, each read in base `radix`.
pub open spec fn parts_value(parts: Seq<Seq<char>>, radix: nat, base: nat) -> nat
    decreases parts.len(),
{
    if parts.len() == 0 {
        0
    } else {
        parts_value(parts.drop_last(), radix, base) * base + text_value(parts.last(), radix)
    }
}

/// Relies on `FromIterator<char>` for `String`: the string holds the characters in order.
#[verifier::external_body]
pub(crate) fn string_of(chars: &Vec<char>) -> (r: String)
    ensures
        r@ == chars@,
{
    chars.iter().collect()
}

/// The characters of `s`, in order.
pub fn chars_of(s: &str) -> (r: Vec<char>)
    ensures
        r@ == s@,
{
    let n = s.unicode_len();
    let mut r: Vec<char> = Vec::new();
    let mut i: usize = 0;
    while i < n
        invariant
            n == s@.len(),
            i <= n,
            r@ == s@.take(i as int),
        decreases n - i,
    {
        let c = s.get_char(i);
        r.push(c);
        i = i + 1;
        assert(r@ =~= s@.take(i as int));
    }
    assert(r@ =~= s@);
    r
}

/// The character of the digit `d`.
pub fn digit_char_of(d: u8) -> (c: char)
    requires
        d < 16,
    ensures
        c == digit_char(d as nat),
        digit_value(c) == d,
{
    if d < 10 {
        (d + 48) as char
    } else {
        (d + 87) as char
    }
}

proof fn lemma_map_push_fixed(d: Seq<nat>, x: nat, width: nat, radix: nat)
    ensures
        d.push(x).map_values(|g: nat| fixed_text(g, width, radix)) == d.map_values(
            |g: nat| fixed_text(g, width, radix),
        ).push(fixed_text(x, width, radix)),
{
    assert(d.push(x).map_values(|g: nat| fixed_text(g, width, radix)) =~= d.map_values(
        |g: nat| fixed_text(g, width, radix),
    ).push(fixed_text(x, width, radix)));
}

proof fn lemma_map_push_decimal(d: Seq<nat>, x: nat)
    ensures
        d.push(x).map_values(|g: nat| decimal_text(g)) == d.map_values(|g: nat| decimal_text(g)).push(
            decimal_text(x),
        ),
{
    assert(d.push(x).map_values(|g: nat| decimal_text(g)) =~= d.map_values(
        |g: nat| decimal_text(g),
    ).push(decimal_text(x)));
}

proof fn lemma_map_push_digit(d: Seq<nat>, x: nat)
    ensures
        d.push(x).map_values(|g: nat| digit_char(g)) == d.map_values(|g: nat| digit_char(g)).push(
            digit_char(x),
        ),
{
    assert(d.push(x).map_values(|g: nat| digit_char(g)) =~= d.map_values(|g: nat| digit_char(g)).push(
        digit_char(x),
    ));
}

/// Appends `x` written with exactly `width` digits of base `radix`.
pub fn push_fixed(out: &mut Vec<char>, x: u128, width: usize, radix: u128)
    requires
        2 <= radix <= 16,
    ensures
        final(out)@ == old(out)@ + fixed_text(x as nat, width as nat, radix as nat),
    decreases width,
{
    if width > 0 {
        push_fixed(out, x / radix, width - 1, radix);
        out.push(digit_char_of((x % radix) as u8));
        proof {
            lemma_map_push_digit(
                be_digits((x / radix) as nat, (width - 1) as nat, radix as nat),
                (x % radix) as nat,
            );
        }
        assert(out@ =~= old(out)@ + fixed_text(x as nat, width as nat, radix as nat));
    } else {
        assert(out@ =~= old(out)@ + fixed_text(x as nat, width as nat, radix as nat));
    }
}

/// Appends `x` in decimal, without leading zeros.
pub fn push_decimal(out: &mut Vec<char>, x: u128)
    ensures
        final(out)@ == old(out)@ + decimal_text(x as nat),
    decreases x,
{
    if x >= 10 {
        push_decimal(out, x / 10);
    }
    out.push(digit_char_of((x % 10) as u8));
    assert(out@ =~= old(out)@ + decimal_text(x as nat));
}

proof fn lemma_join_push(parts: Seq<Seq<char>>, last: Seq<char>, sep: char)
    requires
        parts.len() >= 1,
    ensures
        join(parts.push(last), sep) == join(parts, sep).push(sep) + last,
{
    assert(parts.push(last).drop_last() =~= parts);
}

/// Appends the last `groups` groups of `x`, each worth `group_base` and written
/// with `width` digits of base `radix`, separated by `sep`.
pub fn push_grouped(
    out: &mut Vec<char>,
    x: u128,
    groups: usize,
    group_base: u128,
    width: usize,
    radix: u128,
    sep: char,
)
    requires
        groups >= 1,
        group_base >= 1,
        2 <= radix <= 16,
    ensures
        final(out)@ == old(out)@ + grouped_text(
            x as nat,
            groups as nat,
            group_base as nat,
            width as nat,
            radix as nat,
            sep,
        ),
    decreases groups,
{
    let ghost d = be_digits((x / group_base) as nat, (groups - 1) as nat, group_base as nat);
    proof {
        lemma_map_push_fixed(d, (x % group_base) as nat, width as nat, radix as nat);
    }
    if groups > 1 {
        push_grouped(out, x / group_base, groups - 1, group_base, width, radix, sep);
        out.push(sep);
        proof {
            lemma_join_push(
                d.map_values(|g: nat| fixed_text(g, width as nat, radix as nat)),
                fixed_text((x % group_base) as nat, width as nat, radix as nat),
                sep,
            );
        }
    } else {
        assert(d.map_values(|g: nat| fixed_text(g, width as nat, radix as nat)).push(
            fixed_text((x % group_base) as nat, width as nat, radix as nat),
        ).len() == 1);
    }
    push_fixed(out, x % group_base, width, radix);
    assert(out@ =~= old(out)@ + grouped_text(
        x as nat,
        groups as nat,
        group_base as nat,
        width as nat,
        radix as nat,
        sep,
    ));
}

/// Appends the last `groups` groups of `x`, each worth `group_base` and written
/// in decimal, separated by `sep`.
pub fn push_grouped_decimal(out: &mut Vec<char>, x: u128, groups: usize, group_base: u128, sep: char)
    requires
        groups >= 1,
        group_base >= 1,
    ensures
        final(out)@ == old(out)@ + grouped_decimal_text(
            x as nat,
            groups as nat,
            group_base as nat,
            sep,
        ),
    decreases groups,
{
    let ghost d = be_digits((x / group_base) as nat, (groups - 1) as nat, group_base as nat);
    proof {
        lemma_map_push_decimal(d, (x % group_base) as nat);
    }
    if groups > 1 {
        push_grouped_decimal(out, x / group_base, groups - 1, group_base, sep);
        out.push(sep);
        proof {
            lemma_join_push(
                d.map_values(|g: nat| decimal_text(g)),
                decimal_text((x % group_base) as nat),
                sep,
            );
        }
    } else {
        assert(d.map_values(|g: nat| decimal_text(g)).push(
            decimal_text((x % group_base) as nat),
        ).len() == 1);
    }
    push_decimal(out, x % group_base);
    assert(out@ =~= old(out)@ + grouped_decimal_text(x as nat, groups as nat, group_base as nat, sep));
}


/// The pieces of `s` between occurrences of `sep`.
pub fn split_chars(s: &Vec<char>, sep: char) -> (r: Vec<Vec<char>>)
    ensures
        r@.len() == split(s@, sep).len(),
        forall|k: int| 0 <= k < r@.len() ==> (#[trigger] r@[k])@ == split(s@, sep)[k],
{
    let mut done: Vec<Vec<char>> = Vec::new();
    let mut cur: Vec<char> = Vec::new();
    let mut i: usize = 0;
    assert(s@.take(0) =~= Seq::<char>::empty());
    while i < s.len()
        invariant
            i <= s@.len(),
            split(s@.take(i as int), sep).len() == done@.len() + 1,
            forall|k: int|
                0 <= k < done@.len() ==> (#[trigger] done@[k])@ == split(s@.take(i as int), sep)[k],
            cur@ == split(s@.take(i as int), sep).last(),
        decreases s@.len() - i,
    {
        let c = s[i];
        assert(s@.take(i + 1).drop_last() =~= s@.take(i as int));
        if c == sep {
            done.push(cur);
            cur = Vec::new();
        } else {
            cur.push(c);
        }
        i = i + 1;
    }
    assert(s@.take(s@.len() as int) =~= s@);
    done.push(cur);
    done
}

proof fn lemma_text_value_push(g: Seq<char>, c: char, radix: nat)
    ensures
        text_value(g.push(c), radix) == text_value(g, radix) * radix + digit_value(c),
{
    assert(g.push(c).drop_last() =~= g);
}

/// The value of the numeral `g` in base `radix`, when `g` is not empty, all
/// its characters are digits of that base and the value is at most `max`.
pub fn numeral_value(g: &Vec<char>, radix: u32, max: u32) -> (r: Option<u32>)
    requires
        2 <= radix <= 16,
    ensures
        r is Some <==> (g@.len() > 0 && all_digits(g@, radix as nat) && text_value(
            g@,
            radix as nat,
        ) <= max),
        r matches Some(v) ==> v == text_value(g@, radix as nat),
{
    let mut val: u32 = 0;
    let mut bad = false;
    let mut over = false;
    let mut i: usize = 0;
    assert(g@.take(0) =~= Seq::<char>::empty());
    while i < g.len()
        invariant
            2 <= radix <= 16,
            i <= g@.len(),
            bad == !all_digits(g@.take(i as int), radix as nat),
            !bad ==> (over <==> text_value(g@.take(i as int), radix as nat) > max),
            !bad && !over ==> val == text_value(g@.take(i as int), radix as nat),
        decreases g@.len() - i,
    {
        let c = g[i];
        let ghost prev = g@.take(i as int);
        assert(g@.take(i + 1) =~= prev.push(c));
        proof {
            lemma_text_value_push(prev, c, radix as nat);
        }
        let d = char_digit(c);
        if d >= radix {
            bad = true;
            assert(!all_digits(g@.take(i + 1), radix as nat)) by {
                assert(g@.take(i + 1)[i as int] == c);
            }
        } else {
            if !bad {
                assert(all_digits(g@.take(i + 1), radix as nat)) by {
                    assert forall|j: int| 0 <= j < i + 1 implies digit_value(
                        #[trigger] g@.take(i + 1)[j],
                    ) < radix by {
                        if j < i {
                            assert(g@.take(i + 1)[j] == prev[j]);
                        }
                    }
                }
                if over {
                    assert(text_value(prev, radix as nat) * radix >= text_value(prev, radix as nat))
                        by (nonlinear_arith)
                        requires
                            radix >= 2,
                    ;
                } else {
                    assert(val as u64 * radix as u64 <= 0xffff_ffffu64 * 16) by (nonlinear_arith)
                        requires
                            radix <= 16,
                    ;
                    let next: u64 = val as u64 * radix as u64 + d as u64;
                    if next > max as u64 {
                        over = true;
                    } else {
                        val = next as u32;
                    }
                }
            } else {
                assert(!all_digits(g@.take(i + 1), radix as nat)) by {
                    let j = choose|j: int| 0 <= j < i && digit_value(#[trigger] prev[j]) >= radix;
                    assert(g@.take(i + 1)[j] == prev[j]);
                }
            }
        }
        i = i + 1;
    }
    assert(g@.take(g@.len() as int) =~= g@);
    if g.len() == 0 || bad || over {
        None
    } else {
        Some(val)
    }
}

/// The value of the digit character `c`, or 16 where `c` is no hexadecimal digit.
pub fn char_digit(c: char) -> (r: u32)
    ensures
        r == digit_value(c),
{
    if '0' <= c && c <= '9' {
        c as u32 - '0' as u32
    } else if 'a' <= c && c <= 'f' {
        c as u32 - 'a' as u32 + 10
    } else if 'A' <= c && c <= 'F' {
        c as u32 - 'A' as u32 + 10
    } else {
        16
    }
}


/// Appending a digit below `base` to a number below `base^k` gives one below `base^(k+1)`.
pub proof fn lemma_digit_step_bound(acc: nat, d: nat, base: nat, k: nat)
    requires
        acc < pow(base as int, k),
        d < base,
    ensures
        acc * base + d < pow(base as int, k + 1),
{
    reveal(pow);
    let p = pow(base as int, k);
    assert(pow(base as int, k + 1) == base * p);
    assert(acc * base + d < base * p) by (nonlinear_arith)
        requires
            acc < p,
            d < base,
    ;
}

/// The powers that bound addresses: 256^4 is 2^32, and 256^16 and 65536^8 are 2^128.
pub proof fn lemma_address_powers()
    ensures
        pow(256, 16) == 0x1_0000_0000_0000_0000_0000_0000_0000_0000,
        pow(256, 4) == 0x1_0000_0000,
        pow(65536, 8) == 0x1_0000_0000_0000_0000_0000_0000_0000_0000,
{
    reveal_with_fuel(pow, 17);
}

/// The last `n` bytes of `x`, most significant first.
pub fn be_bytes_of(x: u128, n: usize) -> (r: Vec<u8>)
    ensures
        r@ == be_bytes(x as nat, n as nat),
        r@.len() == n,
    decreases n,
{
    if n == 0 {
        assert(be_bytes(x as nat, 0) =~= Seq::<u8>::empty());
        Vec::new()
    } else {
        let mut r = be_bytes_of(x / 256, n - 1);
        r.push((x % 256) as u8);
        assert(r@ =~= be_bytes(x as nat, n as nat));
        r
    }
}

/// The number whose bytes are `b`, most significant first.
pub fn from_be_slice(b: &[u8]) -> (r: u128)
    requires
        b@.len() <= 16,
    ensures
        r == from_be_bytes(b@),
        r < pow(256, b@.len()),
{
    let mut acc: u128 = 0;
    let mut i: usize = 0;
    proof {
        reveal(pow);
    }
    assert(b@.take(0).map_values(|v: u8| v as nat) =~= Seq::<nat>::empty());
    while i < b.len()
        invariant
            i <= b@.len() <= 16,
            acc == from_be_bytes(b@.take(i as int)),
            acc < pow(256, i as nat),
        decreases b@.len() - i,
    {
        proof {
            lemma_digit_step_bound(acc as nat, b@[i as int] as nat, 256, i as nat);
            vstd::arithmetic::power::lemma_pow_increases(256, (i + 1) as nat, 16);
            lemma_address_powers();
            assert(b@.take(i + 1).map_values(|v: u8| v as nat).drop_last() =~= b@.take(
                i as int,
            ).map_values(|v: u8| v as nat));
        }
        acc = acc * 256 + b[i] as u128;
        i = i + 1;
    }
    assert(b@.take(b@.len() as int) =~= b@);
    acc
}


/// `be_digits` gives `n` digits, each below the base.
pub proof fn lemma_be_digits_shape(x: nat, n: nat, base: nat)
    requires
        base > 0,
    ensures
        be_digits(x, n, base).len() == n,
        forall|i: int| 0 <= i < n ==> #[trigger] be_digits(x, n, base)[i] < base,
    decreases n,
{
    if n > 0 {
        lemma_be_digits_shape(x / base, (n - 1) as nat, base);
        let d = be_digits(x, n, base);
        assert forall|i: int| 0 <= i < n implies #[trigger] d[i] < base by {
            if i < n - 1 {
                assert(d[i] == be_digits(x / base, (n - 1) as nat, base)[i]);
            }
        }
    }
}

/// Reading back the last `n` digits of `x` gives `x` modulo `base^n`.
pub proof fn lemma_from_be_digits_round_trip(x: nat, n: nat, base: nat)
    requires
        base > 0,
    ensures
        from_be_digits(be_digits(x, n, base), base) == x % (pow(base as int, n) as nat),
    decreases n,
{
    reveal(pow);
    vstd::arithmetic::power::lemma_pow_positive(base as int, n);
    if n == 0 {
        assert(x % 1 == 0);
    } else {
        let p = pow(base as int, (n - 1) as nat);
        vstd::arithmetic::power::lemma_pow_positive(base as int, (n - 1) as nat);
        lemma_from_be_digits_round_trip(x / base, (n - 1) as nat, base);
        let d = be_digits(x, n, base);
        assert(d.drop_last() =~= be_digits(x / base, (n - 1) as nat, base));
        vstd::arithmetic::div_mod::lemma_mod_breakdown(x as int, base as int, p);
        assert(from_be_digits(d, base) == ((x / base) % (p as nat)) * base + x % base);
        assert(((x / base) % (p as nat)) * base == base * ((x / base) % (p as nat))) by (nonlinear_arith);
    }
}

/// Reading back the last `n` bytes of a number below `256^n` gives the number.
pub proof fn lemma_be_bytes_round_trip(x: nat, n: nat)
    requires
        x < pow(256, n),
    ensures
        be_bytes(x, n).len() == n,
        from_be_bytes(be_bytes(x, n)) == x,
{
    lemma_be_digits_shape(x, n, 256);
    lemma_from_be_digits_round_trip(x, n, 256);
    vstd::arithmetic::div_mod::lemma_small_mod(x, pow(256, n) as nat);
    let d = be_digits(x, n, 256);
    assert(be_bytes(x, n).map_values(|v: u8| v as nat) =~= d);
}


/// Text without `sep` splits into itself alone.
pub proof fn lemma_split_single(b: Seq<char>, sep: char)
    requires
        free_of(b, sep),
    ensures
        split(b, sep) == seq![b],
    decreases b.len(),
{
    if b.len() == 0 {
        assert(b =~= Seq::<char>::empty());
        assert(split(b, sep) =~= seq![b]);
    } else {
        let init = b.drop_last();
        assert(free_of(init, sep)) by {
            assert forall|i: int| 0 <= i < init.len() implies init[i] != sep by {
                assert(init[i] == b[i]);
            }
        }
        lemma_split_single(init, sep);
        assert(b.last() != sep);
        assert(init.push(b.last()) =~= b);
        let parts = split(init, sep);
        assert(parts == seq![init]);
        assert(parts.len() == 1);
        assert(parts.last() == init);
        assert(split(b, sep) == parts.update(0, init.push(b.last())));
        assert(parts.update(0, init.push(b.last())) =~= seq![b]);
    }
}

/// What follows the last separator, when it holds none, is the last piece.
proof fn lemma_split_after_sep(a: Seq<char>, b: Seq<char>, sep: char)
    requires
        free_of(b, sep),
    ensures
        split(a.push(sep) + b, sep) == split(a, sep).push(b),
    decreases b.len(),
{
    if b.len() == 0 {
        assert(a.push(sep) + b =~= a.push(sep));
        assert(a.push(sep).drop_last() =~= a);
        assert(b =~= Seq::<char>::empty());
    } else {
        let init = b.drop_last();
        assert(free_of(init, sep)) by {
            assert forall|i: int| 0 <= i < init.len() implies init[i] != sep by {
                assert(init[i] == b[i]);
            }
        }
        lemma_split_after_sep(a, init, sep);
        let whole = a.push(sep) + b;
        assert(whole.drop_last() =~= a.push(sep) + init);
        assert(whole.last() == b.last());
        assert(b.last() != sep);
        assert(init.push(b.last()) =~= b);
        let parts = split(a.push(sep) + init, sep);
        assert(parts == split(a, sep).push(init));
        assert(split(whole, sep) == parts.update(parts.len() - 1, parts.last().push(b.last())));
        assert(split(whole, sep) =~= split(a, sep).push(b));
    }
}

/// Splitting parts joined with `sep` gives the parts back, where none holds `sep`.
pub proof fn lemma_split_join(parts: Seq<Seq<char>>, sep: char)
    requires
        parts.len() >= 1,
        forall|k: int| 0 <= k < parts.len() ==> free_of(#[trigger] parts[k], sep),
    ensures
        split(join(parts, sep), sep) == parts,
    decreases parts.len(),
{
    if parts.len() == 1 {
        lemma_split_single(parts[0], sep);
        assert(split(join(parts, sep), sep) =~= parts);
    } else {
        let init = parts.drop_last();
        assert forall|k: int| 0 <= k < init.len() implies free_of(#[trigger] init[k], sep) by {
            assert(init[k] == parts[k]);
        }
        lemma_split_join(init, sep);
        assert(free_of(parts[parts.len() - 1], sep));
        lemma_split_after_sep(join(init, sep), parts.last(), sep);
        assert(init.push(parts.last()) =~= parts);
    }
}

/// A digit's character reads back as the digit.
pub proof fn lemma_digit_char(d: nat)
    requires
        d < 16,
    ensures
        digit_value(digit_char(d)) == d,
{
}

/// Decimal text is digits only, not empty, and reads back as the number.
pub proof fn lemma_decimal_text(x: nat)
    ensures
        decimal_text(x).len() > 0,
        all_digits(decimal_text(x), 10),
        text_value(decimal_text(x), 10) == x,
    decreases x,
{
    if x < 10 {
        lemma_digit_char(x);
        let t = decimal_text(x);
        assert(t.drop_last() =~= Seq::<char>::empty());
        assert(text_value(t.drop_last(), 10) == 0);
    } else {
        lemma_decimal_text(x / 10);
        lemma_digit_char(x % 10);
        let t = decimal_text(x);
        let init = decimal_text(x / 10);
        assert(t.drop_last() =~= init);
        assert forall|i: int| 0 <= i < t.len() implies digit_value(#[trigger] t[i]) < 10 by {
            if i < init.len() {
                assert(t[i] == init[i]);
            }
        }
    }
}

/// Fixed-width text is `width` digits of its base and reads back as the
/// number modulo `radix^width`.
pub proof fn lemma_fixed_text(x: nat, width: nat, radix: nat)
    requires
        2 <= radix <= 16,
    ensures
        fixed_text(x, width, radix).len() == width,
        all_digits(fixed_text(x, width, radix), radix),
        text_value(fixed_text(x, width, radix), radix) == x % (pow(radix as int, width) as nat),
    decreases width,
{
    lemma_be_digits_shape(x, width, radix);
    lemma_from_be_digits_round_trip(x, width, radix);
    let ds = be_digits(x, width, radix);
    let t = fixed_text(x, width, radix);
    assert forall|i: int| 0 <= i < t.len() implies digit_value(#[trigger] t[i]) < radix by {
        assert(ds[i] < radix);
        lemma_digit_char(ds[i]);
    }
    lemma_text_value_of_digits(ds, radix);
}

proof fn lemma_text_value_of_digits(ds: Seq<nat>, radix: nat)
    requires
        radix <= 16,
        forall|i: int| 0 <= i < ds.len() ==> #[trigger] ds[i] < radix,
    ensures
        text_value(ds.map_values(|d: nat| digit_char(d)), radix) == from_be_digits(ds, radix),
    decreases ds.len(),
{
    if ds.len() > 0 {
        let init = ds.drop_last();
        assert forall|i: int| 0 <= i < init.len() implies #[trigger] init[i] < radix by {
            assert(init[i] == ds[i]);
        }
        lemma_text_value_of_digits(init, radix);
        lemma_digit_char(ds.last());
        assert(ds.map_values(|d: nat| digit_char(d)).drop_last() =~= init.map_values(
            |d: nat| digit_char(d),
        ));
    }
}

/// The parts read back as the digits they were written from.
pub proof fn lemma_parts_value(ds: Seq<nat>, f: spec_fn(nat) -> Seq<char>, radix: nat, base: nat)
    requires
        forall|i: int| 0 <= i < ds.len() ==> text_value(f(#[trigger] ds[i]), radix) == ds[i],
    ensures
        parts_value(ds.map_values(f), radix, base) == from_be_digits(ds, base),
    decreases ds.len(),
{
    if ds.len() > 0 {
        let init = ds.drop_last();
        assert forall|i: int| 0 <= i < init.len() implies text_value(
            f(#[trigger] init[i]),
            radix,
        ) == init[i] by {
            assert(init[i] == ds[i]);
        }
        lemma_parts_value(init, f, radix, base);
        assert(ds.map_values(f).drop_last() =~= init.map_values(f));
        assert(text_value(f(ds[ds.len() - 1]), radix) == ds[ds.len() - 1]);
    }
}


/// Joined parts hold a character `c` other than the separator only where a part does.
pub proof fn lemma_join_free_of(parts: Seq<Seq<char>>, sep: char, c: char)
    requires
        sep != c,
        forall|k: int| 0 <= k < parts.len() ==> free_of(#[trigger] parts[k], c),
    ensures
        free_of(join(parts, sep), c),
    decreases parts.len(),
{
    if parts.len() > 1 {
        let init = parts.drop_last();
        assert forall|k: int| 0 <= k < init.len() implies free_of(#[trigger] init[k], c) by {
            assert(init[k] == parts[k]);
        }
        lemma_join_free_of(init, sep, c);
        assert(free_of(parts[parts.len() - 1], c));
        let j = join(parts, sep);
        let front = join(init, sep).push(sep);
        assert forall|i: int| 0 <= i < j.len() implies j[i] != c by {
            if i < front.len() {
                assert(j[i] == front[i]);
                if i < front.len() - 1 {
                    assert(front[i] == join(init, sep)[i]);
                }
            } else {
                assert(j[i] == parts.last()[i - front.len()]);
            }
        }
    } else if parts.len() == 1 {
        assert(free_of(parts[0], c));
    }
}

/// Digits of a base up to 16 are no separator ('.' or ':').
pub proof fn lemma_digits_free_of(g: Seq<char>, radix: nat, c: char)
    requires
        radix <= 16,
        all_digits(g, radix),
        digit_value(c) == 16,
    ensures
        free_of(g, c),
{
    assert forall|i: int| 0 <= i < g.len() implies g[i] != c by {
        assert(digit_value(g[i]) < radix);
    }
}

} // verus!
