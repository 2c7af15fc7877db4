use vstd::prelude::*;

verus! {

// ---------------------------------------------------------------------------
// Lexicographic order on character sequences.
//
// Characters are compared by code point, so for UTF-8 encoded text this is
// the same order a byte-wise comparison of the encoded text gives; it is the
// order the store uses for every name-sorted listing.
// ---------------------------------------------------------------------------

pub open spec fn lex_le(a: Seq<char>, b: Seq<char>) -> bool
    decreases a.len(),
{
    if a.len() == 0 {
        true
    } else if b.len() == 0 {
        false
    } else if (a[0] as u32) < (b[0] as u32) {
        true
    } else if (a[0] as u32) > (b[0] as u32) {
        false
    } else {
        lex_le(a.skip(1), b.skip(1))
    }
}

pub proof fn lemma_lex_le_refl(a: Seq<char>)
    ensures
        lex_le(a, a),
    decreases a.len(),
{
    if a.len() > 0 {
        lemma_lex_le_refl(a.skip(1));
    }
}

pub proof fn lemma_lex_le_total(a: Seq<char>, b: Seq<char>)
    ensures
        lex_le(a, b) || lex_le(b, a),
    decreases a.len(),
{
    if a.len() == 0 || b.len() == 0 {
    } else if (a[0] as u32) == (b[0] as u32) {
        lemma_lex_le_total(a.skip(1), b.skip(1));
    }
}

pub proof fn lemma_lex_le_trans(a: Seq<char>, b: Seq<char>, c: Seq<char>)
    requires
        lex_le(a, b),
        lex_le(b, c),
    ensures
        lex_le(a, c),
    decreases a.len(),
{
    if a.len() == 0 || b.len() == 0 || c.len() == 0 {
    } else if (a[0] as u32) == (b[0] as u32) && (b[0] as u32) == (c[0] as u32) {
        lemma_lex_le_trans(a.skip(1), b.skip(1), c.skip(1));
    }
}

/// When the first `i` characters agree, the comparison is decided at `i`.
proof fn lemma_lex_le_at(a: Seq<char>, b: Seq<char>, i: int)
    requires
        0 <= i <= a.len(),
        i <= b.len(),
        forall|j: int| 0 <= j < i ==> a[j] == b[j],
    ensures
        lex_le(a, b) == (if i == a.len() {
            true
        } else if i == b.len() {
            false
        } else if (a[i] as u32) < (b[i] as u32) {
            true
        } else if (a[i] as u32) > (b[i] as u32) {
            false
        } else {
            lex_le(a.skip(i + 1), b.skip(i + 1))
        }),
    decreases i,
{
    if i == 0 {
        if 0 < a.len() && 0 < b.len() && (a[0] as u32) == (b[0] as u32) {
            assert(a.skip(1) =~= a.skip(0int + 1));
        }
    } else {
        assert(a[0] == b[0]);
        lemma_lex_le_at(a.skip(1), b.skip(1), i - 1);
        if i < a.len() && i < b.len() {
            assert(a.skip(1)[i - 1] == a[i]);
            assert(b.skip(1)[i - 1] == b[i]);
            if (a[i] as u32) == (b[i] as u32) {
                assert(a.skip(1).skip(i) =~= a.skip(i + 1));
                assert(b.skip(1).skip(i) =~= b.skip(i + 1));
            }
        }
    }
}

/// Whether `a` comes no later than `b` in the store's listing order.
pub fn str_le(a: &str, b: &str) -> (r: bool)
    ensures
        r == lex_le(a@, b@),
{
    let a_len = a.unicode_len();
    let b_len = b.unicode_len();
    let mut i: usize = 0;
    loop
        invariant
            a_len == a@.len(),
            b_len == b@.len(),
            i <= a_len,
            i <= b_len,
            forall|j: int| 0 <= j < i ==> a@[j] == b@[j],
        decreases a_len - i,
    {
        proof {
            lemma_lex_le_at(a@, b@, i as int);
        }
        if i == a_len {
            return true;
        }
        if i == b_len {
            return false;
        }
        let ca = a.get_char(i);
        let cb = b.get_char(i);
        if (ca as u32) < (cb as u32) {
            return true;
        }
        if (ca as u32) > (cb as u32) {
            return false;
        }
        i = i + 1;
    }
}

/// Character-for-character equality of two string slices.
pub fn str_eq(a: &str, b: &str) -> (r: bool)
    ensures
        r == (a@ == b@),
{
    let a_len = a.unicode_len();
    let b_len = b.unicode_len();
    if a_len != b_len {
        return false;
    }
    let mut i: usize = 0;
    while i < a_len
        invariant
            a_len == a@.len(),
            b_len == b@.len(),
            a_len == b_len,
            i <= a_len,
            forall|j: int| 0 <= j < i ==> a@[j] == b@[j],
        decreases a_len - i,
    {
        if a.get_char(i) as u32 != b.get_char(i) as u32 {
            return false;
        }
        i = i + 1;
    }
    proof {
        assert(a@ =~= b@);
    }
    true
}

/// Whether `a` begins with `p`.
pub open spec fn has_prefix(a: Seq<char>, p: Seq<char>) -> bool {
    p.len() <= a.len() && a.subrange(0, p.len() as int) == p
}

/// Whether `s` begins with `prefix`.
pub fn str_starts_with(s: &str, prefix: &str) -> (r: bool)
    ensures
        r == has_prefix(s@, prefix@),
{
    let s_len = s.unicode_len();
    let p_len = prefix.unicode_len();
    if p_len > s_len {
        return false;
    }
    let mut i: usize = 0;
    while i < p_len
        invariant
            s_len == s@.len(),
            p_len == prefix@.len(),
            p_len <= s_len,
            i <= p_len,
            forall|j: int| 0 <= j < i ==> s@[j] == prefix@[j],
        decreases p_len - i,
    {
        if s.get_char(i) as u32 != prefix.get_char(i) as u32 {
            assert(s@.subrange(0, p_len as int)[i as int] != prefix@[i as int]);
            return false;
        }
        i = i + 1;
    }
    proof {
        assert(s@.subrange(0, p_len as int) =~= prefix@);
    }
    true
}

// ---------------------------------------------------------------------------
// ASCII case-insensitive comparison.
//
// Only the letters 'A'..'Z' fold; this is the comparison the scanner uses for
// file extensions and the parser for element names.
// ---------------------------------------------------------------------------

pub open spec fn fold_code(c: char) -> u32 {
    if 65 <= (c as u32) <= 90 {
        ((c as u32) + 32) as u32
    } else {
        c as u32
    }
}

pub open spec fn eq_ignore_ascii_case(a: Seq<char>, b: Seq<char>) -> bool {
    a.len() == b.len() && (forall|i: int| 0 <= i < a.len() ==> fold_code(a[i]) == fold_code(b[i]))
}

pub fn str_eq_ignore_ascii_case(a: &str, b: &str) -> (r: bool)
    ensures
        r == eq_ignore_ascii_case(a@, b@),
{
    let a_len = a.unicode_len();
    let b_len = b.unicode_len();
    if a_len != b_len {
        return false;
    }
    let mut i: usize = 0;
    while i < a_len
        invariant
            a_len == a@.len(),
            b_len == b@.len(),
            a_len == b_len,
            i <= a_len,
            forall|j: int| 0 <= j < i ==> fold_code(a@[j]) == fold_code(b@[j]),
        decreases a_len - i,
    {
        let ca = a.get_char(i) as u32;
        let cb = b.get_char(i) as u32;
        let fa = if 65 <= ca && ca <= 90 {
            ca + 32
        } else {
            ca
        };
        let fb = if 65 <= cb && cb <= 90 {
            cb + 32
        } else {
            cb
        };
        if fa != fb {
            return false;
        }
        i = i + 1;
    }
    true
}

// ---------------------------------------------------------------------------
// Decimal rendering of unsigned integers.
// ---------------------------------------------------------------------------

pub open spec fn dec_digit(d: nat) -> char {
    if d == 0 {
        '0'
    } else if d == 1 {
        '1'
    } else if d == 2 {
        '2'
    } else if d == 3 {
        '3'
    } else if d == 4 {
        '4'
    } else if d == 5 {
        '5'
    } else if d == 6 {
        '6'
    } else if d == 7 {
        '7'
    } else if d == 8 {
        '8'
    } else {
        '9'
    }
}

/// The usual decimal notation of `n`, most significant digit first.
pub open spec fn dec_str(n: nat) -> Seq<char>
    decreases n,
{
    if n < 10 {
        seq![dec_digit(n)]
    } else {
        dec_str(n / 10).push(dec_digit(n % 10))
    }
}

fn dec_digit_string(d: u64) -> (r: String)
    requires
        d < 10,
    ensures
        r@ =~= seq![dec_digit(d as nat)],
{
    if d == 0 {
        let r = String::from_str("0");
        proof {
            reveal_strlit("0");
        }
        return r;
    }
    if d == 1 {
        let r = String::from_str("1");
        proof {
            reveal_strlit("1");
        }
        return r;
    }
    if d == 2 {
        let r = String::from_str("2");
        proof {
            reveal_strlit("2");
        }
        return r;
    }
    if d == 3 {
        let r = String::from_str("3");
        proof {
            reveal_strlit("3");
        }
        return r;
    }
    if d == 4 {
        let r = String::from_str("4");
        proof {
            reveal_strlit("4");
        }
        return r;
    }
    if d == 5 {
        let r = String::from_str("5");
        proof {
            reveal_strlit("5");
        }
        return r;
    }
    if d == 6 {
        let r = String::from_str("6");
        proof {
            reveal_strlit("6");
        }
        return r;
    }
    if d == 7 {
        let r = String::from_str("7");
        proof {
            reveal_strlit("7");
        }
        return r;
    }
    if d == 8 {
        let r = String::from_str("8");
        proof {
            reveal_strlit("8");
        }
        return r;
    }
    let r = String::from_str("9");
    proof {
        reveal_strlit("9");
    }
    r
}

/// Decimal notation of `n`.
pub fn u64_to_dec(n: u64) -> (r: String)
    ensures
        r@ == dec_str(n as nat),
    decreases n,
{
    if n < 10 {
        dec_digit_string(n)
    } else {
        let mut r = u64_to_dec(n / 10);
        let last = dec_digit_string(n % 10);
        r.append(last.as_str());
        proof {
            assert(r@ =~= dec_str((n / 10) as nat).push(dec_digit((n % 10) as nat)));
        }
        r
    }
}

// ---------------------------------------------------------------------------
// Joining lines.
// ---------------------------------------------------------------------------

/// The lines joined with a newline between each adjacent pair.
pub open spec fn join_lines(lines: Seq<Seq<char>>) -> Seq<char>
    decreases lines.len(),
{
    if lines.len() == 0 {
        Seq::empty()
    } else if lines.len() == 1 {
        lines[0]
    } else {
        join_lines(lines.drop_last()) + seq!['\n'] + lines.last()
    }
}

pub fn join_with_newlines(v: &Vec<String>) -> (r: String)
    ensures
        r@ == join_lines(v@.map_values(|s: String| s@)),
{
    let ghost views = v@.map_values(|s: String| s@);
    let mut r = String::new();
    let n = v.len();
    let mut i: usize = 0;
    proof {
        assert(views.take(0) =~= Seq::<Seq<char>>::empty());
    }
    while i < n
        invariant
            n == v@.len(),
            views == v@.map_values(|s: String| s@),
            i <= n,
            r@ == join_lines(views.take(i as int)),
        decreases n - i,
    {
        proof {
            reveal_strlit("\n");
            assert(views.take(i as int + 1).drop_last() =~= views.take(i as int));
            assert(views.take(i as int + 1).last() == views[i as int]);
            assert(views[i as int] == v@[i as int]@);
            assert("\n"@ =~= seq!['\n']);
        }
        if i > 0 {
            r.append("\n");
        }
        r.append(v[i].as_str());
        proof {
            if i == 0 {
                assert(r@ =~= join_lines(views.take(1)));
            } else {
                assert(r@ =~= join_lines(views.take(i as int)) + seq!['\n'] + views[i as int]);
            }
        }
        i = i + 1;
    }
    proof {
        assert(views.take(n as int) =~= views);
    }
    r
}

// ---------------------------------------------------------------------------
// Searching and splitting.
// ---------------------------------------------------------------------------

/// Index of the last occurrence of `c` in `s`, if any.
pub open spec fn last_index_of(s: Seq<char>, c: char) -> Option<int>
    decreases s.len(),
{
    if s.len() == 0 {
        None
    } else if s.last() == c {
        Some(s.len() - 1)
    } else {
        last_index_of(s.drop_last(), c)
    }
}

/// Index of the first occurrence of `c` in `s`, if any.
pub open spec fn first_index_of(s: Seq<char>, c: char) -> Option<int>
    decreases s.len(),
{
    if s.len() == 0 {
        None
    } else if s[0] == c {
        Some(0)
    } else {
        match first_index_of(s.skip(1), c) {
            Some(i) => Some(i + 1),
            None => None,
        }
    }
}

pub fn rfind_char(s: &str, c: char) -> (r: Option<usize>)
    ensures
        match r {
            Some(i) => i < s@.len() && last_index_of(s@, c) == Some(i as int),
            None => last_index_of(s@, c) is None,
        },
{
    let len = s.unicode_len();
    let mut i: usize = len;
    proof {
        assert(s@.take(len as int) =~= s@);
    }
    while i > 0
        invariant
            len == s@.len(),
            i <= len,
            last_index_of(s@, c) == last_index_of(s@.take(i as int), c),
        decreases i,
    {
        i = i - 1;
        if s.get_char(i) as u32 == c as u32 {
            proof {
                assert(s@.take(i as int + 1).last() == c);
            }
            return Some(i);
        }
        proof {
            assert(s@.take(i as int + 1).drop_last() =~= s@.take(i as int));
        }
    }
    proof {
        assert(s@.take(0) =~= Seq::<char>::empty());
    }
    None
}

pub fn find_char(s: &str, c: char) -> (r: Option<usize>)
    ensures
        match r {
            Some(i) => i < s@.len() && first_index_of(s@, c) == Some(i as int),
            None => first_index_of(s@, c) is None,
        },
{
    let len = s.unicode_len();
    let mut i: usize = 0;
    while i < len
        invariant
            len == s@.len(),
            i <= len,
            forall|j: int| 0 <= j < i ==> s@[j] != c,
        decreases len - i,
    {
        if s.get_char(i) as u32 == c as u32 {
            proof {
                lemma_first_index_found(s@, c, i as int);
            }
            return Some(i);
        }
        i = i + 1;
    }
    proof {
        lemma_first_index_none(s@, c);
    }
    None
}

proof fn lemma_first_index_found(s: Seq<char>, c: char, i: int)
    requires
        0 <= i < s.len(),
        s[i] == c,
        forall|j: int| 0 <= j < i ==> s[j] != c,
    ensures
        first_index_of(s, c) == Some(i),
    decreases i,
{
    if i > 0 {
        lemma_first_index_found(s.skip(1), c, i - 1);
    }
}

proof fn lemma_first_index_none(s: Seq<char>, c: char)
    requires
        forall|j: int| 0 <= j < s.len() ==> s[j] != c,
    ensures
        first_index_of(s, c) is None,
    decreases s.len(),
{
    if s.len() > 0 {
        lemma_first_index_none(s.skip(1), c);
    }
}

/// `name` with every copy of `suffix` removed from its end, one after the
/// other; with an empty `suffix`, `name` itself.
pub open spec fn strip_suffix_all(name: Seq<char>, suffix: Seq<char>) -> Seq<char>
    decreases name.len(),
{
    if suffix.len() == 0 || name.len() < suffix.len() || name.subrange(
        name.len() - suffix.len(),
        name.len() as int,
    ) != suffix {
        name
    } else {
        strip_suffix_all(name.take(name.len() - suffix.len()), suffix)
    }
}

fn ends_with(s: &str, suffix: &str) -> (r: bool)
    ensures
        r == (suffix@.len() <= s@.len() && s@.subrange(
            s@.len() - suffix@.len(),
            s@.len() as int,
        ) == suffix@),
{
    let s_len = s.unicode_len();
    let x_len = suffix.unicode_len();
    if x_len > s_len {
        return false;
    }
    let tail = s.substring_char(s_len - x_len, s_len);
    str_eq(tail, suffix)
}

/// `name` with every trailing copy of `suffix` removed.
pub fn trim_end_matches(name: &str, suffix: &str) -> (r: String)
    ensures
        r@ == strip_suffix_all(name@, suffix@),
    decreases name@.len(),
{
    let x_len = suffix.unicode_len();
    if x_len == 0 {
        return String::from_str(name);
    }
    if ends_with(name, suffix) {
        let n_len = name.unicode_len();
        let head = name.substring_char(0, n_len - x_len);
        proof {
            assert(head@ =~= name@.take(name@.len() - suffix@.len()));
        }
        trim_end_matches(head, suffix)
    } else {
        String::from_str(name)
    }
}

} // verus!
