use vstd::prelude::*;

use crate::strings::{dec_digit, dec_str, str_eq, u64_to_dec};

verus! {

// ---------------------------------------------------------------------------
// The archive's entry format.
//
// One archive entry is a JSON object `{"name":N,"list":[I,...]}` where each
// item `I` is `{"file_name":F,"position":P}` for playlists or
// `{"file_name":F,"rank":R}` for moods. Items are addressed by file name,
// not by hash, so an archive survives a library whose hashes are re-derived
// from the same names. The encoder writes exactly the canonical form below;
// the decoder accepts exactly that form, which it certifies by re-encoding.
// ---------------------------------------------------------------------------

/// One archived association: a file name and its position or rank.
#[derive(Debug)]
pub struct BackupItem {
    pub file_name: String,
    pub value: u64,
}

impl Clone for BackupItem {
    fn clone(&self) -> (r: Self)
        ensures
            r == *self,
    {
        BackupItem { file_name: self.file_name.clone(), value: self.value }
    }
}

/// One archived playlist or mood: its name and its associations.
#[derive(Debug)]
pub struct BackupEntry {
    pub name: String,
    pub items: Vec<BackupItem>,
}

/// One file of the archive: its name inside the archive and its text.
#[derive(Debug)]
pub struct ArchiveFile {
    pub name: String,
    pub data: String,
}

/// How one character is written inside a quoted string: quotes and
/// backslashes carry a backslash, everything else stands as it is.
pub open spec fn esc_char(c: char) -> Seq<char> {
    if c == '"' {
        seq!['\\', '"']
    } else if c == '\\' {
        seq!['\\', '\\']
    } else {
        seq![c]
    }
}

pub open spec fn escaped(s: Seq<char>) -> Seq<char>
    decreases s.len(),
{
    if s.len() == 0 {
        Seq::empty()
    } else {
        escaped(s.drop_last()) + esc_char(s.last())
    }
}

/// The view of one item as the entry text carries it.
pub open spec fn item_json(file_name: Seq<char>, value: u64, key: Seq<char>) -> Seq<char> {
    "{\"file_name\":\""@ + escaped(file_name) + "\",\""@ + key + "\":"@ + dec_str(value as nat)
        + "}"@
}

/// The item list, comma separated.
pub open spec fn items_json(items: Seq<(Seq<char>, u64)>, key: Seq<char>) -> Seq<char>
    decreases items.len(),
{
    if items.len() == 0 {
        Seq::empty()
    } else if items.len() == 1 {
        item_json(items[0].0, items[0].1, key)
    } else {
        items_json(items.drop_last(), key) + seq![','] + item_json(
            items.last().0,
            items.last().1,
            key,
        )
    }
}

/// The whole entry text.
pub open spec fn entry_json(name: Seq<char>, items: Seq<(Seq<char>, u64)>, key: Seq<char>) -> Seq<
    char,
> {
    "{\"name\":\""@ + escaped(name) + "\",\"list\":["@ + items_json(items, key) + "]}"@
}

/// The views of a vector of items.
pub open spec fn item_views(items: Seq<BackupItem>) -> Seq<(Seq<char>, u64)> {
    items.map_values(|it: BackupItem| (it.file_name@, it.value))
}

fn escape(s: &str) -> (r: String)
    ensures
        r@ == escaped(s@),
{
    let n = s.unicode_len();
    let mut r = String::new();
    let mut i: usize = 0;
    proof {
        assert(s@.take(0) =~= Seq::<char>::empty());
    }
    while i < n
        invariant
            n == s@.len(),
            i <= n,
            r@ == escaped(s@.take(i as int)),
        decreases n - i,
    {
        proof {
            assert(s@.take(i as int + 1).drop_last() =~= s@.take(i as int));
            assert(s@.take(i as int + 1).last() == s@[i as int]);
        }
        let c = s.get_char(i);
        if c == '"' {
            r.append("\\\"");
            proof {
                reveal_strlit("\\\"");
                assert(r@ =~= escaped(s@.take(i as int + 1)));
            }
        } else if c == '\\' {
            r.append("\\\\");
            proof {
                reveal_strlit("\\\\");
                assert(r@ =~= escaped(s@.take(i as int + 1)));
            }
        } else {
            let piece = s.substring_char(i, i + 1);
            r.append(piece);
            proof {
                assert(piece@ =~= seq![s@[i as int]]);
                assert(r@ =~= escaped(s@.take(i as int + 1)));
            }
        }
        i = i + 1;
    }
    proof {
        assert(s@.take(n as int) =~= s@);
    }
    r
}

/// Renders one entry in the canonical archive form.
pub fn encode_entry(name: &str, items: &Vec<BackupItem>, key: &str) -> (r: String)
    ensures
        r@ == entry_json(name@, item_views(items@), key@),
{
    let ghost views = item_views(items@);
    let mut r = String::from_str("{\"name\":\"");
    let esc_name = escape(name);
    r.append(esc_name.as_str());
    r.append("\",\"list\":[");
    let n = items.len();
    let mut i: usize = 0;
    proof {
        assert(r@ =~= "{\"name\":\""@ + escaped(name@) + "\",\"list\":["@ + items_json(
            views.take(0),
            key@,
        ));
    }
    while i < n
        invariant
            n == items@.len(),
            views == item_views(items@),
            i <= n,
            r@ == "{\"name\":\""@ + escaped(name@) + "\",\"list\":["@ + items_json(
                views.take(i as int),
                key@,
            ),
        decreases n - i,
    {
        proof {
            assert(views.take(i as int + 1).drop_last() =~= views.take(i as int));
            assert(views.take(i as int + 1).last() == views[i as int]);
            assert(views[i as int] == (items@[i as int].file_name@, items@[i as int].value));
        }
        if i > 0 {
            r.append(",");
            proof {
                reveal_strlit(",");
                assert(","@ =~= seq![',']);
            }
        }
        r.append("{\"file_name\":\"");
        let esc_fn = escape(items[i].file_name.as_str());
        r.append(esc_fn.as_str());
        r.append("\",\"");
        r.append(key);
        r.append("\":");
        let num = u64_to_dec(items[i].value);
        r.append(num.as_str());
        r.append("}");
        proof {
            if i == 0 {
                assert(r@ =~= "{\"name\":\""@ + escaped(name@) + "\",\"list\":["@ + items_json(
                    views.take(1),
                    key@,
                ));
            } else {
                assert(r@ =~= "{\"name\":\""@ + escaped(name@) + "\",\"list\":["@ + items_json(
                    views.take(i as int + 1),
                    key@,
                ));
            }
        }
        i = i + 1;
    }
    proof {
        assert(views.take(n as int) =~= views);
    }
    r.append("]}");
    proof {
        assert(r@ =~= entry_json(name@, views, key@));
    }
    r
}

// ---------------------------------------------------------------------------
// Decoding. The reader accepts exactly the canonical rendering the encoder
// writes — one key order, no whitespace, the two escapes — and nothing
// else: a JSON-equivalent text in another rendering is refused. It is
// complete on that form: every canonical entry text decodes, to exactly
// the entry it spells.
// ---------------------------------------------------------------------------

pub open spec fn is_digit_char(c: char) -> bool {
    48 <= (c as u32) <= 57
}

/// Where the digit run starting at `pos` ends.
pub open spec fn digit_run_end(s: Seq<char>, pos: int) -> int
    decreases s.len() - pos when 0 <= pos <= s.len()
{
    if pos < s.len() && is_digit_char(s[pos]) {
        digit_run_end(s, pos + 1)
    } else {
        pos
    }
}

/// The number the digits `s[pos..end)` spell, most significant first.
pub open spec fn digits_val(s: Seq<char>, pos: int, end: int) -> int
    decreases end - pos when pos <= end
{
    if pos >= end {
        0
    } else {
        digits_val(s, pos, end - 1) * 10 + ((s[end - 1] as u32) - 48)
    }
}

/// What reading a quoted string body at `pos` yields: the text up to the
/// closing quote, the two escapes undone, and the position after that
/// quote; nothing on a bare backslash or a missing quote.
pub open spec fn str_body(s: Seq<char>, pos: int) -> Option<(Seq<char>, int)>
    decreases s.len() - pos when 0 <= pos <= s.len()
{
    if pos >= s.len() {
        None
    } else if s[pos] == '"' {
        Some((Seq::empty(), pos + 1))
    } else if s[pos] == '\\' {
        if pos + 1 >= s.len() {
            None
        } else if s[pos + 1] == '"' || s[pos + 1] == '\\' {
            match str_body(s, pos + 2) {
                Some(p) => Some((seq![s[pos + 1]] + p.0, p.1)),
                None => None,
            }
        } else {
            None
        }
    } else {
        match str_body(s, pos + 1) {
            Some(p) => Some((seq![s[pos]] + p.0, p.1)),
            None => None,
        }
    }
}

/// How a partial read continues: consuming from `i` after having decoded
/// `acc` reads the same whole body as starting at `pos`.
spec fn sb_extend(s: Seq<char>, pos: int, i: int, acc: Seq<char>) -> bool {
    match str_body(s, i) {
        Some(p) => str_body(s, pos) == Some((acc + p.0, p.1)),
        None => str_body(s, pos) is None,
    }
}

proof fn lemma_str_body_bounds(s: Seq<char>, pos: int)
    requires
        0 <= pos <= s.len(),
    ensures
        match str_body(s, pos) {
            Some(p) => pos < p.1 <= s.len(),
            None => true,
        },
    decreases s.len() - pos,
{
    if pos < s.len() {
        if s[pos] == '\\' && pos + 1 < s.len() && (s[pos + 1] == '"' || s[pos + 1] == '\\') {
            lemma_str_body_bounds(s, pos + 2);
        } else if s[pos] != '"' && s[pos] != '\\' {
            lemma_str_body_bounds(s, pos + 1);
        }
    }
}

/// `escaped` unfolds from the front as well.
proof fn lemma_escaped_front(m: Seq<char>)
    requires
        m.len() > 0,
    ensures
        escaped(m) == esc_char(m[0]) + escaped(m.skip(1)),
    decreases m.len(),
{
    if m.len() == 1 {
        assert(m.drop_last().len() == 0);
        assert(escaped(m.drop_last()) =~= Seq::<char>::empty());
        assert(m.skip(1).len() == 0);
        assert(escaped(m.skip(1)) =~= Seq::<char>::empty());
        assert(m.last() == m[0]);
        assert(escaped(m) =~= esc_char(m[0]) + escaped(m.skip(1)));
    } else {
        let d = m.drop_last();
        lemma_escaped_front(d);
        assert(d[0] == m[0]);
        assert(m.skip(1).drop_last() =~= d.skip(1));
        assert(m.skip(1).last() == m.last());
        assert(escaped(m.skip(1)) == escaped(d.skip(1)) + esc_char(m.last()));
        assert(escaped(m) == (esc_char(m[0]) + escaped(d.skip(1))) + esc_char(m.last()));
        assert((esc_char(m[0]) + escaped(d.skip(1))) + esc_char(m.last()) =~= esc_char(m[0]) + (
        escaped(d.skip(1)) + esc_char(m.last())));
    }
}

/// Reading at a position that holds `escaped(m)` followed by a quote
/// yields exactly `m`.
proof fn lemma_str_body_complete(s: Seq<char>, pos: int, m: Seq<char>)
    requires
        0 <= pos,
        pos + escaped(m).len() + 1 <= s.len(),
        s.subrange(pos, pos + escaped(m).len()) == escaped(m),
        s[pos + escaped(m).len()] == '"',
    ensures
        str_body(s, pos) == Some((m, pos + escaped(m).len() + 1)),
    decreases m.len(),
{
    if m.len() == 0 {
        assert(escaped(m).len() == 0);
        assert(s[pos] == '"');
    } else {
        lemma_escaped_front(m);
        let e0 = esc_char(m[0]);
        let rest = escaped(m.skip(1));
        assert(escaped(m).len() == e0.len() + rest.len());
        assert(forall|j: int|
            0 <= j < escaped(m).len() ==> (#[trigger] s.subrange(pos, pos + escaped(m).len())[j])
                == s[pos + j]);
        assert(forall|j: int| 0 <= j < e0.len() ==> (#[trigger] escaped(m)[j]) == e0[j]);
        if m[0] == '"' || m[0] == '\\' {
            assert(e0.len() == 2);
            assert(s[pos] == s.subrange(pos, pos + escaped(m).len())[0]);
            assert(escaped(m)[0] == e0[0]);
            assert(e0[0] == '\\');
            assert(s[pos + 1] == s.subrange(pos, pos + escaped(m).len())[1]);
            assert(escaped(m)[1] == e0[1]);
            assert(e0[1] == m[0]);
            assert forall|j: int|
                0 <= j < rest.len() implies s.subrange(pos + 2, pos + 2 + rest.len())[j]
                == rest[j] by {
                assert(s[pos + 2 + j] == s.subrange(pos, pos + escaped(m).len())[2 + j]);
                assert(escaped(m)[2 + j] == rest[j]);
            }
            assert(s.subrange(pos + 2, pos + 2 + rest.len()) =~= rest);
            assert(s[pos + 2 + rest.len()] == '"');
            lemma_str_body_complete(s, pos + 2, m.skip(1));
            assert(seq![m[0]] + m.skip(1) =~= m);
            assert(s[pos + 1] == '"' || s[pos + 1] == '\\');
        } else {
            assert(e0.len() == 1);
            assert(s[pos] == s.subrange(pos, pos + escaped(m).len())[0]);
            assert(escaped(m)[0] == e0[0]);
            assert(e0[0] == m[0]);
            assert(s[pos] != '"' && s[pos] != '\\');
            assert forall|j: int|
                0 <= j < rest.len() implies s.subrange(pos + 1, pos + 1 + rest.len())[j]
                == rest[j] by {
                assert(s[pos + 1 + j] == s.subrange(pos, pos + escaped(m).len())[1 + j]);
                assert(escaped(m)[1 + j] == rest[j]);
            }
            assert(s.subrange(pos + 1, pos + 1 + rest.len()) =~= rest);
            assert(s[pos + 1 + rest.len()] == '"');
            lemma_str_body_complete(s, pos + 1, m.skip(1));
            assert(seq![m[0]] + m.skip(1) =~= m);
        }
    }
}

proof fn lemma_digits_val_nonneg(s: Seq<char>, pos: int, end: int)
    requires
        pos <= end,
        forall|j: int| pos <= j < end ==> is_digit_char(s[j]),
    ensures
        digits_val(s, pos, end) >= 0,
    decreases end - pos,
{
    if pos < end {
        lemma_digits_val_nonneg(s, pos, end - 1);
    }
}

proof fn lemma_digits_val_mono(s: Seq<char>, pos: int, a: int, b: int)
    requires
        pos <= a <= b,
        forall|j: int| pos <= j < b ==> is_digit_char(s[j]),
    ensures
        digits_val(s, pos, b) >= digits_val(s, pos, a),
    decreases b - a,
{
    if a < b {
        lemma_digits_val_mono(s, pos, a, b - 1);
        lemma_digits_val_nonneg(s, pos, b - 1);
    }
}

proof fn lemma_run_end_bounds(s: Seq<char>, pos: int)
    requires
        0 <= pos <= s.len(),
    ensures
        pos <= digit_run_end(s, pos) <= s.len(),
        forall|j: int| pos <= j < digit_run_end(s, pos) ==> is_digit_char(s[j]),
    decreases s.len() - pos,
{
    if pos < s.len() && is_digit_char(s[pos]) {
        lemma_run_end_bounds(s, pos + 1);
    }
}

/// A run of `len` digits followed by a non-digit (or the end) ends exactly
/// after those digits.
proof fn lemma_run_end_exact(s: Seq<char>, pos: int, len: int)
    requires
        0 <= pos,
        0 <= len,
        pos + len <= s.len(),
        forall|j: int| pos <= j < pos + len ==> is_digit_char(s[j]),
        pos + len == s.len() || !is_digit_char(s[pos + len]),
    ensures
        digit_run_end(s, pos) == pos + len,
    decreases len,
{
    if len > 0 {
        assert(is_digit_char(s[pos]));
        lemma_run_end_exact(s, pos + 1, len - 1);
    }
}

/// Decimal notation is all digits, and at least one.
proof fn lemma_dec_str_digits(v: nat)
    ensures
        dec_str(v).len() >= 1,
        forall|j: int| 0 <= j < dec_str(v).len() ==> is_digit_char(#[trigger] dec_str(v)[j]),
    decreases v,
{
    if v >= 10 {
        lemma_dec_str_digits(v / 10);
        assert(forall|j: int|
            0 <= j < dec_str(v / 10).len() ==> dec_str(v)[j] == dec_str(v / 10)[j]);
        assert(is_digit_char(dec_digit(v % 10)));
    } else {
        assert(is_digit_char(dec_digit(v)));
    }
}

/// The digits of `dec_str(v)`, wherever they sit, spell `v` back.
proof fn lemma_dec_str_val(s: Seq<char>, pos: int, v: nat)
    requires
        0 <= pos,
        pos + dec_str(v).len() <= s.len(),
        s.subrange(pos, pos + dec_str(v).len()) == dec_str(v),
    ensures
        digits_val(s, pos, pos + dec_str(v).len()) == v,
    decreases v,
{
    assert(forall|j: int|
        0 <= j < dec_str(v).len() ==> (#[trigger] s.subrange(pos, pos + dec_str(v).len())[j]) == s[
            pos + j
        ]);
    assert(digits_val(s, pos, pos) == 0);
    if v < 10 {
        assert(dec_str(v).len() == 1);
        assert(s[pos] == s.subrange(pos, pos + dec_str(v).len())[0]);
        assert(dec_str(v)[0] == dec_digit(v));
        assert((dec_digit(v) as u32) - 48 == v);
        assert(digits_val(s, pos, pos + 1) == digits_val(s, pos, pos) * 10 + ((s[pos] as u32)
            - 48));
    } else {
        let prefix = dec_str(v / 10);
        assert(dec_str(v) == prefix.push(dec_digit(v % 10)));
        assert forall|j: int|
            0 <= j < prefix.len() implies s.subrange(pos, pos + prefix.len())[j] == prefix[j] by {
            assert(s[pos + j] == s.subrange(pos, pos + dec_str(v).len())[j]);
            assert(dec_str(v)[j] == prefix[j]);
        }
        assert(s.subrange(pos, pos + prefix.len()) =~= prefix);
        lemma_dec_str_val(s, pos, v / 10);
        assert(s[pos + dec_str(v).len() - 1] == s.subrange(pos, pos + dec_str(v).len())[dec_str(
            v,
        ).len() - 1]);
        assert(dec_str(v)[dec_str(v).len() - 1] == dec_digit(v % 10));
        assert((dec_digit(v % 10) as u32) - 48 == v % 10);
        assert(v / 10 * 10 + v % 10 == v);
    }
}

/// The item list unfolds from the front as well.
proof fn lemma_items_json_front(items: Seq<(Seq<char>, u64)>, key: Seq<char>)
    requires
        items.len() > 0,
    ensures
        items_json(items, key) == item_json(items[0].0, items[0].1, key) + (if items.len() == 1 {
            Seq::<char>::empty()
        } else {
            seq![','] + items_json(items.skip(1), key)
        }),
    decreases items.len(),
{
    if items.len() == 1 {
        assert(items_json(items, key) =~= item_json(items[0].0, items[0].1, key)
            + Seq::<char>::empty());
    } else {
        let d = items.drop_last();
        lemma_items_json_front(d, key);
        assert(d[0] == items[0]);
        assert(items.skip(1).drop_last() =~= d.skip(1));
        assert(items.skip(1).last() == items.last());
        if items.len() == 2 {
            assert(items_json(d, key) == item_json(items[0].0, items[0].1, key)
                + Seq::<char>::empty());
            assert(items.skip(1).len() == 1);
            assert(items.skip(1)[0] == items[1]);
            assert(items_json(items.skip(1), key) == item_json(items[1].0, items[1].1, key));
            assert(items_json(items, key) =~= item_json(items[0].0, items[0].1, key) + (seq![',']
                + items_json(items.skip(1), key)));
        } else {
            assert(items_json(items.skip(1), key) == items_json(d.skip(1), key) + seq![',']
                + item_json(items.last().0, items.last().1, key));
            assert(items_json(d, key) == item_json(items[0].0, items[0].1, key) + (seq![',']
                + items_json(d.skip(1), key)));
            assert(items_json(items, key) == items_json(d, key) + seq![','] + item_json(
                items.last().0,
                items.last().1,
                key,
            ));
            assert(items_json(items, key) =~= item_json(items[0].0, items[0].1, key) + (seq![',']
                + items_json(items.skip(1), key)));
        }
    }
}

/// Splitting a suffix: when what follows `pos` is `a` then `b`, the next
/// `a.len()` characters read `a` and what follows them is `b`.
proof fn lemma_skip_split(s: Seq<char>, pos: int, a: Seq<char>, b: Seq<char>)
    requires
        0 <= pos <= s.len(),
        s.skip(pos) == a + b,
    ensures
        pos + a.len() <= s.len(),
        s.subrange(pos, pos + a.len()) == a,
        s.skip(pos + a.len()) == b,
{
    assert(s.skip(pos).len() == a.len() + b.len());
    assert forall|j: int|
        0 <= j < a.len() implies s.subrange(pos, pos + a.len())[j] == a[j] by {
        assert(s.skip(pos)[j] == s[pos + j]);
        assert((a + b)[j] == a[j]);
    }
    assert(s.subrange(pos, pos + a.len()) =~= a);
    assert forall|j: int|
        0 <= j < b.len() implies s.skip(pos + a.len())[j] == b[j] by {
        assert(s.skip(pos)[a.len() + j] == s[pos + a.len() + j]);
        assert((a + b)[a.len() + j] == b[j]);
    }
    assert(s.skip(pos + a.len()) =~= b);
}

/// The head layout of a canonical entry text.
proof fn lemma_entry_head(s: Seq<char>, n: Seq<char>, items: Seq<(Seq<char>, u64)>, key: Seq<char>)
    requires
        s == entry_json(n, items, key),
    ensures
        ({
            let p1 = "{\"name\":\""@.len() as int;
            let p2 = p1 + escaped(n).len() + 1;
            let p3 = p2 + ",\"list\":["@.len();
            &&& p3 <= s.len()
            &&& s.subrange(0, p1) == "{\"name\":\""@
            &&& s.subrange(p1, p1 + escaped(n).len()) == escaped(n)
            &&& s[p1 + escaped(n).len()] == '"'
            &&& s.subrange(p2, p3) == ",\"list\":["@
            &&& s.skip(p3) == items_json(items, key) + "]}"@
        }),
{
    reveal_strlit("\",\"list\":[");
    reveal_strlit(",\"list\":[");
    let head = "{\"name\":\""@;
    let qlt = "\",\"list\":["@;
    let lt = ",\"list\":["@;
    assert(qlt =~= seq!['"'] + lt);
    let tail = items_json(items, key) + "]}"@;
    assert(s =~= head + (escaped(n) + ((seq!['"'] + lt) + tail)));
    assert(s.skip(0) =~= s);
    lemma_skip_split(s, 0, head, escaped(n) + ((seq!['"'] + lt) + tail));
    lemma_skip_split(s, head.len() as int, escaped(n), (seq!['"'] + lt) + tail);
    let p1 = head.len() as int;
    assert((seq!['"'] + lt) + tail =~= seq!['"'] + (lt + tail));
    lemma_skip_split(s, p1 + escaped(n).len(), seq!['"'], lt + tail);
    assert(s[p1 + escaped(n).len()] == s.skip(p1 + escaped(n).len())[0]);
    lemma_skip_split(s, p1 + escaped(n).len() + 1, lt, tail);
}

/// The first item of a canonical item list: where it sits and what follows.
proof fn lemma_item_suffix(s: Seq<char>, pos: int, items: Seq<(Seq<char>, u64)>, key: Seq<char>)
    requires
        0 <= pos <= s.len(),
        items.len() > 0,
        s.skip(pos) == items_json(items, key) + "]}"@,
    ensures
        ({
            let ilen = item_json(items[0].0, items[0].1, key).len() as int;
            &&& pos + ilen <= s.len()
            &&& s.subrange(pos, pos + ilen) == item_json(items[0].0, items[0].1, key)
            &&& s[pos] == '{'
            &&& (if items.len() == 1 {
                s.skip(pos + ilen) == "]}"@
            } else {
                pos + ilen < s.len() && s[pos + ilen] == ',' && s.skip(pos + ilen + 1)
                    == items_json(items.skip(1), key) + "]}"@
            })
        }),
{
    reveal_strlit("{\"file_name\":\"");
    reveal_strlit("]}");
    lemma_items_json_front(items, key);
    let first = item_json(items[0].0, items[0].1, key);
    let sep = if items.len() == 1 {
        Seq::<char>::empty()
    } else {
        seq![','] + items_json(items.skip(1), key)
    };
    assert(s.skip(pos) =~= first + (sep + "]}"@));
    lemma_skip_split(s, pos, first, sep + "]}"@);
    let ilen = first.len() as int;
    assert(s[pos] == s.subrange(pos, pos + ilen)[0]);
    assert(first[0] == "{\"file_name\":\""@[0]) by {
        assert(first =~= "{\"file_name\":\""@ + (escaped(items[0].0) + ("\",\""@ + (key + ("\":"@
            + (dec_str(items[0].1 as nat) + "}"@))))));
    }
    if items.len() == 1 {
        assert(s.skip(pos + ilen) =~= "]}"@);
    } else {
        assert(sep + "]}"@ =~= seq![','] + (items_json(items.skip(1), key) + "]}"@));
        lemma_skip_split(s, pos + ilen, seq![','], items_json(items.skip(1), key) + "]}"@);
        assert(s[pos + ilen] == s.subrange(pos + ilen, pos + ilen + 1)[0]);
    }
}

/// The pieces inside one rendered item.
proof fn lemma_item_region(s: Seq<char>, pos: int, fname: Seq<char>, v: u64, key: Seq<char>)
    requires
        0 <= pos,
        pos + item_json(fname, v, key).len() <= s.len(),
        s.subrange(pos, pos + item_json(fname, v, key).len()) == item_json(fname, v, key),
    ensures
        ({
            let p0 = pos + "{\"file_name\":\""@.len();
            let p1 = p0 + escaped(fname).len() + 1;
            let p2 = p1 + ",\""@.len();
            let p3 = p2 + key.len();
            let p4 = p3 + "\":"@.len();
            let p5 = p4 + dec_str(v as nat).len();
            let p6 = p5 + 1;
            &&& p6 == pos + item_json(fname, v, key).len()
            &&& s.subrange(pos, p0) == "{\"file_name\":\""@
            &&& s.subrange(p0, p0 + escaped(fname).len()) == escaped(fname)
            &&& s[p0 + escaped(fname).len()] == '"'
            &&& s.subrange(p1, p2) == ",\""@
            &&& s.subrange(p2, p3) == key
            &&& s.subrange(p3, p4) == "\":"@
            &&& s.subrange(p4, p5) == dec_str(v as nat)
            &&& p5 < s.len() && !is_digit_char(s[p5])
            &&& s.subrange(p5, p6) == "}"@
        }),
{
    reveal_strlit("{\"file_name\":\"");
    reveal_strlit("\",\"");
    reveal_strlit(",\"");
    reveal_strlit("\":");
    reveal_strlit("}");
    let lfn = "{\"file_name\":\""@;
    let q3 = "\",\""@;
    let cq = ",\""@;
    let q2 = "\":"@;
    let rb = "}"@;
    assert(q3 =~= seq!['"'] + cq);
    let whole = item_json(fname, v, key);
    let ghost end = pos + whole.len();
    assert(s.subrange(pos, end) == whole);
    assert forall|j: int| 0 <= j < whole.len() implies s[pos + j] == whole[j] by {
        assert(s.subrange(pos, end)[j] == s[pos + j]);
    }
    // work on the item region through a suffix view of s
    assert(whole =~= lfn + (escaped(fname) + ((seq!['"'] + cq) + (key + (q2 + (dec_str(v as nat)
        + rb))))));
    let t = s.skip(pos);
    assert forall|j: int| 0 <= j < whole.len() implies t[j] == whole[j] by {
        assert(s.subrange(pos, end)[j] == s[pos + j]);
    }
    let after = t.skip(whole.len() as int);
    assert(t =~= whole + after);
    assert(t =~= lfn + ((escaped(fname) + ((seq!['"'] + cq) + (key + (q2 + (dec_str(v as nat)
        + rb))))) + after));
    assert(s.skip(pos) == t);
    lemma_skip_split(
        s,
        pos,
        lfn,
        (escaped(fname) + ((seq!['"'] + cq) + (key + (q2 + (dec_str(v as nat) + rb))))) + after,
    );
    let p0 = pos + lfn.len();
    assert((escaped(fname) + ((seq!['"'] + cq) + (key + (q2 + (dec_str(v as nat) + rb))))) + after
        =~= escaped(fname) + (((seq!['"'] + cq) + (key + (q2 + (dec_str(v as nat) + rb))))
        + after));
    lemma_skip_split(
        s,
        p0,
        escaped(fname),
        ((seq!['"'] + cq) + (key + (q2 + (dec_str(v as nat) + rb)))) + after,
    );
    let pq = p0 + escaped(fname).len();
    assert(((seq!['"'] + cq) + (key + (q2 + (dec_str(v as nat) + rb)))) + after =~= seq!['"'] + ((cq
        + (key + (q2 + (dec_str(v as nat) + rb)))) + after));
    lemma_skip_split(s, pq, seq!['"'], (cq + (key + (q2 + (dec_str(v as nat) + rb)))) + after);
    assert(s[pq] == s.skip(pq)[0]);
    let p1 = pq + 1;
    assert((cq + (key + (q2 + (dec_str(v as nat) + rb)))) + after =~= cq + ((key + (q2 + (dec_str(
        v as nat,
    ) + rb))) + after));
    lemma_skip_split(s, p1, cq, (key + (q2 + (dec_str(v as nat) + rb))) + after);
    let p2 = p1 + cq.len();
    assert((key + (q2 + (dec_str(v as nat) + rb))) + after =~= key + ((q2 + (dec_str(v as nat)
        + rb)) + after));
    lemma_skip_split(s, p2, key, (q2 + (dec_str(v as nat) + rb)) + after);
    let p3 = p2 + key.len();
    assert((q2 + (dec_str(v as nat) + rb)) + after =~= q2 + ((dec_str(v as nat) + rb) + after));
    lemma_skip_split(s, p3, q2, (dec_str(v as nat) + rb) + after);
    let p4 = p3 + q2.len();
    assert((dec_str(v as nat) + rb) + after =~= dec_str(v as nat) + (rb + after));
    lemma_skip_split(s, p4, dec_str(v as nat), rb + after);
    let p5 = p4 + dec_str(v as nat).len();
    lemma_skip_split(s, p5, rb, after);
    assert(s[p5] == s.skip(p5)[0]);
    assert(s[p5] == '}');
    assert(!is_digit_char('}'));
}

/// Advances past `lit` at `pos` exactly when `lit` stands there.
fn parse_lit(s: &str, pos: usize, lit: &str) -> (r: Option<usize>)
    requires
        pos <= s@.len(),
    ensures
        match r {
            Some(next) => {
                &&& next == pos + lit@.len()
                &&& next <= s@.len()
                &&& s@.subrange(pos as int, next as int) == lit@
            },
            None => !(pos + lit@.len() <= s@.len() && s@.subrange(
                pos as int,
                pos + lit@.len(),
            ) == lit@),
        },
{
    let s_len = s.unicode_len();
    let l_len = lit.unicode_len();
    if l_len > s_len - pos {
        return None;
    }
    let mut i: usize = 0;
    while i < l_len
        invariant
            s_len == s@.len(),
            l_len == lit@.len(),
            pos + l_len <= s_len,
            i <= l_len,
            forall|j: int| 0 <= j < i ==> s@[pos + j] == lit@[j],
        decreases l_len - i,
    {
        if s.get_char(pos + i) as u32 != lit.get_char(i) as u32 {
            proof {
                assert(s@.subrange(pos as int, pos + lit@.len())[i as int] == s@[pos + i]);
            }
            return None;
        }
        i = i + 1;
    }
    proof {
        assert(s@.subrange(pos as int, pos + lit@.len()) =~= lit@);
    }
    Some(pos + l_len)
}

/// Reads a quoted string body: exactly what `str_body` says it reads.
fn parse_string(s: &str, pos: usize) -> (r: Option<(String, usize)>)
    requires
        pos <= s@.len(),
    ensures
        match r {
            Some(p) => pos < p.1 <= s@.len() && str_body(s@, pos as int) == Some((
                p.0@,
                p.1 as int,
            )),
            None => str_body(s@, pos as int) is None,
        },
{
    let s_len = s.unicode_len();
    let mut out = String::new();
    let mut i: usize = pos;
    proof {
        assert(sb_extend(s@, pos as int, pos as int, out@)) by {
            match str_body(s@, pos as int) {
                Some(p) => {
                    assert(out@ + p.0 =~= p.0);
                },
                None => {},
            }
        }
    }
    while i < s_len
        invariant
            s_len == s@.len(),
            pos <= i <= s_len,
            sb_extend(s@, pos as int, i as int, out@),
        decreases s_len - i,
    {
        let c = s.get_char(i);
        if c == '"' {
            proof {
                assert(str_body(s@, i as int) == Some((Seq::<char>::empty(), i + 1 as int)));
                assert(out@ + Seq::<char>::empty() =~= out@);
            }
            return Some((out, i + 1));
        }
        if c == '\\' {
            if i + 1 >= s_len {
                return None;
            }
            let d = s.get_char(i + 1);
            if d == '"' || d == '\\' {
                let ghost old_out = out@;
                if d == '"' {
                    out.append("\"");
                    proof {
                        reveal_strlit("\"");
                        assert("\""@ =~= seq!['"']);
                    }
                } else {
                    out.append("\\");
                    proof {
                        reveal_strlit("\\");
                        assert("\\"@ =~= seq!['\\']);
                    }
                }
                proof {
                    assert(out@ == old_out + seq![d]);
                    assert(sb_extend(s@, pos as int, i as int + 2, out@)) by {
                        match str_body(s@, i as int + 2) {
                            Some(p) => {
                                assert(str_body(s@, i as int) == Some((seq![d] + p.0, p.1)));
                                assert(old_out + (seq![d] + p.0) =~= (old_out + seq![d]) + p.0);
                            },
                            None => {
                                assert(str_body(s@, i as int) is None);
                            },
                        }
                    }
                }
                i = i + 2;
            } else {
                return None;
            }
        } else {
            let ghost old_out = out@;
            let piece = s.substring_char(i, i + 1);
            out.append(piece);
            proof {
                assert(piece@ =~= seq![s@[i as int]]);
                assert(out@ == old_out + seq![s@[i as int]]);
                assert(sb_extend(s@, pos as int, i as int + 1, out@)) by {
                    match str_body(s@, i as int + 1) {
                        Some(p) => {
                            assert(str_body(s@, i as int) == Some((seq![s@[i as int]] + p.0, p.1)));
                            assert(old_out + (seq![s@[i as int]] + p.0) =~= (old_out
                                + seq![s@[i as int]]) + p.0);
                        },
                        None => {
                            assert(str_body(s@, i as int) is None);
                        },
                    }
                }
            }
            i = i + 1;
        }
    }
    None
}

/// When the value grown by the digit at `i` leaves the unsigned 64-bit
/// range, the whole run's value does too.
proof fn lemma_number_overflow(s: Seq<char>, pos: int, i: int, value: int, d: int)
    requires
        0 <= pos <= i < s.len(),
        forall|j: int| pos <= j < i ==> is_digit_char(s[j]),
        is_digit_char(s[i]),
        value == digits_val(s, pos, i),
        d == (s[i] as u32) - 48,
        value * 10 + d > u64::MAX,
    ensures
        digits_val(s, pos, digit_run_end(s, pos)) > u64::MAX,
        digit_run_end(s, pos) == digit_run_end(s, i),
{
    lemma_run_end_bounds(s, i as int);
    lemma_run_end_bounds(s, i + 1);
    assert(digit_run_end(s, i) == digit_run_end(s, i + 1));
    assert(i + 1 <= digit_run_end(s, i));
    assert(digits_val(s, pos, i + 1) == value * 10 + d);
    assert forall|j: int| pos <= j < digit_run_end(s, i) implies is_digit_char(s[j]) by {
        if j < i {
        } else if j == i {
        }
    }
    lemma_digits_val_mono(s, pos, i + 1, digit_run_end(s, i));
    lemma_run_end_same(s, pos, i);
}

/// The run from `pos` and the run from any digit position inside it end at
/// the same place.
proof fn lemma_run_end_same(s: Seq<char>, pos: int, i: int)
    requires
        0 <= pos <= i <= s.len(),
        forall|j: int| pos <= j < i ==> is_digit_char(s[j]),
    ensures
        digit_run_end(s, pos) == digit_run_end(s, i),
    decreases i - pos,
{
    if pos < i {
        assert(is_digit_char(s[pos]));
        lemma_run_end_same(s, pos + 1, i);
    }
}

/// Reads a decimal number: the whole digit run at `pos` and its value;
/// nothing without a digit or past the unsigned 64-bit range.
fn parse_number(s: &str, pos: usize) -> (r: Option<(u64, usize)>)
    requires
        pos <= s@.len(),
    ensures
        match r {
            Some(p) => {
                &&& pos < p.1 <= s@.len()
                &&& p.1 as int == digit_run_end(s@, pos as int)
                &&& p.0 as int == digits_val(s@, pos as int, p.1 as int)
            },
            None => digit_run_end(s@, pos as int) == pos || digits_val(
                s@,
                pos as int,
                digit_run_end(s@, pos as int),
            ) > u64::MAX,
        },
{
    let s_len = s.unicode_len();
    let mut value: u64 = 0;
    let mut i: usize = pos;
    while i < s_len
        invariant
            s_len == s@.len(),
            pos <= i <= s_len,
            forall|j: int| pos <= j < i ==> is_digit_char(s@[j]),
            digit_run_end(s@, pos as int) == digit_run_end(s@, i as int),
            value as int == digits_val(s@, pos as int, i as int),
        decreases s_len - i,
    {
        let c = s.get_char(i) as u32;
        if c < 48 || c > 57 {
            if i > pos {
                return Some((value, i));
            }
            return None;
        }
        proof {
            assert(is_digit_char(s@[i as int]));
        }
        let d = (c - 48) as u64;
        if value > 0xffff_ffff_ffff_ffffu64 / 10 {
            proof {
                lemma_number_overflow(s@, pos as int, i as int, value as int, d as int);
            }
            return None;
        }
        let shifted = value * 10;
        if shifted > 0xffff_ffff_ffff_ffffu64 - d {
            proof {
                lemma_number_overflow(s@, pos as int, i as int, value as int, d as int);
            }
            return None;
        }
        value = shifted + d;
        i = i + 1;
    }
    if i > pos {
        return Some((value, i));
    }
    None
}

/// Reads one item. When the caller knows the canonical item that stands at
/// `pos`, the read is guaranteed to succeed and to return exactly it.
fn parse_item(s: &str, pos: usize, key: &str, Ghost(exp): Ghost<Option<(Seq<char>, u64)>>) -> (r:
    Option<(BackupItem, usize)>)
    requires
        pos <= s@.len(),
        match exp {
            Some(cq) => pos + item_json(cq.0, cq.1, key@).len() <= s@.len() && s@.subrange(
                pos as int,
                pos + item_json(cq.0, cq.1, key@).len(),
            ) == item_json(cq.0, cq.1, key@),
            None => true,
        },
    ensures
        match r {
            Some(p) => pos < p.1 <= s@.len(),
            None => true,
        },
        match exp {
            Some(cq) => match r {
                Some(p) => p.0.file_name@ == cq.0 && p.0.value == cq.1 && p.1 as int == pos
                    + item_json(cq.0, cq.1, key@).len(),
                None => false,
            },
            None => true,
        },
{
    proof {
        reveal_strlit("{\"file_name\":\"");
        reveal_strlit(",\"");
        reveal_strlit("\":");
        reveal_strlit("}");
        if let Some(cq) = exp {
            lemma_item_region(s@, pos as int, cq.0, cq.1, key@);
        }
    }
    let mut pos = pos;
    pos = match parse_lit(s, pos, "{\"file_name\":\"") {
        Some(p) => p,
        None => {
            return None;
        },
    };
    let file_name = match parse_string(s, pos) {
        Some(p) => {
            proof {
                if let Some(cq) = exp {
                    lemma_str_body_complete(s@, pos as int, cq.0);
                }
            }
            pos = p.1;
            p.0
        },
        None => {
            proof {
                if let Some(cq) = exp {
                    lemma_str_body_complete(s@, pos as int, cq.0);
                }
            }
            return None;
        },
    };
    pos = match parse_lit(s, pos, ",\"") {
        Some(p) => p,
        None => {
            return None;
        },
    };
    pos = match parse_lit(s, pos, key) {
        Some(p) => p,
        None => {
            return None;
        },
    };
    pos = match parse_lit(s, pos, "\":") {
        Some(p) => p,
        None => {
            return None;
        },
    };
    proof {
        if let Some(cq) = exp {
            lemma_dec_str_digits(cq.1 as nat);
            let dlen = dec_str(cq.1 as nat).len() as int;
            assert forall|j: int| pos <= j < pos + dlen implies is_digit_char(s@[j]) by {
                assert(s@.subrange(pos as int, pos + dlen)[j - pos] == s@[j]);
                assert(is_digit_char(dec_str(cq.1 as nat)[j - pos]));
            }
            lemma_run_end_exact(s@, pos as int, dlen);
            lemma_dec_str_val(s@, pos as int, cq.1 as nat);
        }
    }
    let value = match parse_number(s, pos) {
        Some(p) => {
            pos = p.1;
            p.0
        },
        None => {
            return None;
        },
    };
    pos = match parse_lit(s, pos, "}") {
        Some(p) => p,
        None => {
            return None;
        },
    };
    Some((BackupItem { file_name, value }, pos))
}

#[verifier::rlimit(50)]
fn decode_entry_raw(s: &str, key: &str) -> (r: Option<BackupEntry>)
    ensures
        (exists|n: Seq<char>, its: Seq<(Seq<char>, u64)>| s@ == entry_json(n, its, key@))
            ==> match r {
            Some(e) => s@ == entry_json(e.name@, item_views(e.items@), key@),
            None => false,
        },
{
    let ghost canonical = exists|n: Seq<char>, its: Seq<(Seq<char>, u64)>|
        s@ == entry_json(n, its, key@);
    let ghost (cn, citems): (Seq<char>, Seq<(Seq<char>, u64)>) = if canonical {
        choose|n: Seq<char>, its: Seq<(Seq<char>, u64)>| s@ == entry_json(n, its, key@)
    } else {
        (Seq::empty(), Seq::empty())
    };
    proof {
        reveal_strlit("{\"name\":\"");
        reveal_strlit(",\"list\":[");
        reveal_strlit("]}");
        if canonical {
            lemma_entry_head(s@, cn, citems, key@);
        }
    }
    let s_len = s.unicode_len();
    let mut pos: usize = 0;
    pos = match parse_lit(s, pos, "{\"name\":\"") {
        Some(p) => p,
        None => {
            return None;
        },
    };
    let name = match parse_string(s, pos) {
        Some(p) => {
            proof {
                if canonical {
                    lemma_str_body_complete(s@, pos as int, cn);
                }
            }
            pos = p.1;
            p.0
        },
        None => {
            proof {
                if canonical {
                    lemma_str_body_complete(s@, pos as int, cn);
                }
            }
            return None;
        },
    };
    pos = match parse_lit(s, pos, ",\"list\":[") {
        Some(p) => p,
        None => {
            return None;
        },
    };
    proof {
        if canonical && citems.len() > 0 {
            lemma_item_suffix(s@, pos as int, citems, key@);
        }
        if canonical && citems.len() == 0 {
            assert(items_json(citems, key@) + "]}"@ =~= "]}"@);
            lemma_skip_split(s@, pos as int, "]}"@, Seq::<char>::empty());
        }
    }
    let mut items: Vec<BackupItem> = Vec::new();
    if let Some(p) = parse_lit(s, pos, "]}") {
        if p == s_len {
            proof {
                if canonical {
                    if citems.len() > 0 {
                        assert(s@.subrange(pos as int, pos as int + 2)[0] == s@[pos as int]);
                        assert("]}"@[0] == ']');
                        assert(false);
                    }
                    assert(item_views(items@) =~= citems);
                }
            }
            return Some(BackupEntry { name, items });
        }
        proof {
            if canonical {
                if citems.len() > 0 {
                    assert(s@.subrange(pos as int, pos as int + 2)[0] == s@[pos as int]);
                    assert("]}"@[0] == ']');
                } else {
                    assert(s@.skip(pos as int).len() == 2);
                }
                assert(false);
            }
        }
        return None;
    }
    proof {
        if canonical && citems.len() == 0 {
            assert(s@.subrange(pos as int, pos as int + 2) =~= "]}"@);
            assert(false);
        }
        if canonical {
            assert(citems.skip(0) =~= citems);
            assert(item_views(items@) =~= citems.take(0));
        }
    }
    loop
        invariant
            s_len == s@.len(),
            pos <= s_len,
            canonical == (exists|n: Seq<char>, its: Seq<(Seq<char>, u64)>|
                s@ == entry_json(n, its, key@)),
            canonical ==> s@ == entry_json(cn, citems, key@),
            canonical ==> name@ == cn,
            canonical ==> (items@.len() as int) < citems.len(),
            canonical ==> item_views(items@) == citems.take(items@.len() as int),
            canonical ==> s@.skip(pos as int) == items_json(
                citems.skip(items@.len() as int),
                key@,
            ) + "]}"@,
        decreases s_len - pos,
    {
        let ghost q = items@.len() as int;
        let ghost rest = citems.skip(q);
        proof {
            reveal_strlit("]}");
            if canonical {
                assert(rest.len() > 0);
                lemma_item_suffix(s@, pos as int, rest, key@);
            }
        }
        let ghost exp = if canonical {
            Some(citems[q])
        } else {
            None::<(Seq<char>, u64)>
        };
        proof {
            if canonical {
                assert(rest[0] == citems[q]);
            }
        }
        let parsed = match parse_item(s, pos, key, Ghost(exp)) {
            Some(p) => p,
            None => {
                return None;
            },
        };
        let ghost old_pos = pos as int;
        pos = parsed.1;
        let ghost old_items = items@;
        items.push(parsed.0);
        proof {
            if canonical {
                assert(item_views(items@) =~= citems.take(q + 1));
                if q + 1 < citems.len() {
                    assert(rest.skip(1) =~= citems.skip(q + 1));
                    assert(s@[pos as int] == ',');
                    assert(s@.skip(pos as int + 1) == items_json(citems.skip(q + 1), key@)
                        + "]}"@);
                } else {
                    assert(s@.skip(pos as int) =~= "]}"@);
                }
            }
        }
        if pos >= s_len {
            proof {
                if canonical {
                    assert(false);
                }
            }
            return None;
        }
        let c = s.get_char(pos);
        if c == ']' {
            if let Some(p) = parse_lit(s, pos, "]}") {
                if p == s_len {
                    proof {
                        if canonical {
                            if q + 1 < citems.len() {
                                assert(false);
                            }
                            assert(item_views(items@) =~= citems);
                        }
                    }
                    return Some(BackupEntry { name, items });
                }
            }
            proof {
                if canonical {
                    if q + 1 < citems.len() {
                        assert(false);
                    } else {
                        lemma_skip_split(s@, pos as int, "]}"@, Seq::<char>::empty());
                        assert(false);
                    }
                }
            }
            return None;
        }
        if c != ',' {
            proof {
                if canonical {
                    if q + 1 < citems.len() {
                        assert(false);
                    } else {
                        assert(s@[pos as int] == s@.skip(pos as int)[0]);
                        assert(s@[pos as int] == ']');
                        assert(false);
                    }
                }
            }
            return None;
        }
        pos = pos + 1;
        proof {
            if canonical {
                if q + 1 >= citems.len() {
                    assert(s@[pos as int - 1] == s@.skip(pos as int - 1)[0]);
                    assert(s@[pos as int - 1] == ']');
                    assert(false);
                }
            }
        }
    }
}

/// Decodes one archive entry. Complete and sound on the canonical form:
/// every canonical entry text decodes, to exactly the entry it spells —
/// rendering the result gives back the input, letter for letter — and a
/// text that is not the canonical rendering of any entry is refused.
pub fn decode_entry(s: &str, key: &str) -> (r: Option<BackupEntry>)
    ensures
        match r {
            Some(e) => s@ == entry_json(e.name@, item_views(e.items@), key@),
            None => !(exists|n: Seq<char>, its: Seq<(Seq<char>, u64)>|
                s@ == entry_json(n, its, key@)),
        },
{
    match decode_entry_raw(s, key) {
        Some(e) => {
            let rendered = encode_entry(e.name.as_str(), &e.items, key);
            if str_eq(rendered.as_str(), s) {
                Some(e)
            } else {
                None
            }
        },
        None => None,
    }
}

} // verus!
