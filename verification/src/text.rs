//! Text: equality, the order of names, joining, and numbers in decimal.

use vstd::prelude::*;

verus! {

/// `a` and `b` agree before position `k`, and at `k` either `a` has ended and
/// `b` has not, or the byte of `a` is the smaller one.
pub open spec fn bytes_part_at(a: Seq<u8>, b: Seq<u8>, k: int) -> bool {
    &&& 0 <= k <= a.len()
    &&& k < b.len()
    &&& forall|i: int| 0 <= i < k ==> #[trigger] a[i] == b[i]
    &&& k < a.len() ==> a[k] < b[k]
}

/// Lexicographic order of byte sequences.
pub open spec fn bytes_lt(a: Seq<u8>, b: Seq<u8>) -> bool {
    exists|k: int| bytes_part_at(a, b, k)
}

/// The order of names: the one in which Rust compares strings, by the bytes of
/// their UTF-8 encoding.
pub open spec fn name_lt(a: Seq<char>, b: Seq<char>) -> bool {
    bytes_lt(vstd::utf8::encode_utf8(a), vstd::utf8::encode_utf8(b))
}

/// Every name comes before all that follow it; so none occurs twice.
pub open spec fn strictly_sorted(names: Seq<Seq<char>>) -> bool {
    forall|i: int, j: int| 0 <= i < j < names.len() ==> #[trigger] name_lt(names[i], names[j])
}

/// `names` lists `members`, each once, in the order of names.
pub open spec fn lists_in_order(names: Seq<Seq<char>>, members: Set<Seq<char>>) -> bool {
    &&& strictly_sorted(names)
    &&& forall|n: Seq<char>| #[trigger] names.contains(n) <==> members.contains(n)
}

/// Two texts with the same encoding are the same text.
pub proof fn lemma_encoding_tells_texts_apart(a: Seq<char>, b: Seq<char>)
    requires
        vstd::utf8::encode_utf8(a) == vstd::utf8::encode_utf8(b),
    ensures
        a == b,
{
    vstd::utf8::encode_utf8_decode_utf8(a);
    vstd::utf8::encode_utf8_decode_utf8(b);
}

/// The order of names is irreflexive.
pub proof fn lemma_name_lt_irreflexive(a: Seq<char>)
    ensures
        !name_lt(a, a),
{
}

/// The order of names is transitive.
pub proof fn lemma_name_lt_transitive(a: Seq<char>, b: Seq<char>, c: Seq<char>)
    requires
        name_lt(a, b),
        name_lt(b, c),
    ensures
        name_lt(a, c),
{
    let (x, y, z) = (
        vstd::utf8::encode_utf8(a),
        vstd::utf8::encode_utf8(b),
        vstd::utf8::encode_utf8(c),
    );
    let k = choose|k: int| bytes_part_at(x, y, k);
    let l = choose|l: int| bytes_part_at(y, z, l);
    let m = if k < l { k } else { l };
    assert forall|i: int| 0 <= i < m implies #[trigger] x[i] == z[i] by {
        assert(x[i] == y[i]);
        assert(y[i] == z[i]);
    }
    assert(bytes_part_at(x, z, m));
}

/// Of two names that come neither before the other, each is the other.
pub proof fn lemma_name_lt_total(a: Seq<char>, b: Seq<char>)
    ensures
        name_lt(a, b) || name_lt(b, a) || a == b,
{
    let (x, y) = (vstd::utf8::encode_utf8(a), vstd::utf8::encode_utf8(b));
    lemma_bytes_differ_first(x, y, 0);
    if x == y {
        lemma_encoding_tells_texts_apart(a, b);
    }
}

proof fn lemma_bytes_differ_first(x: Seq<u8>, y: Seq<u8>, k: int)
    requires
        0 <= k <= x.len(),
        k <= y.len(),
        forall|i: int| 0 <= i < k ==> #[trigger] x[i] == y[i],
    ensures
        bytes_lt(x, y) || bytes_lt(y, x) || x == y,
    decreases x.len() - k,
{
    if k == x.len() && k == y.len() {
        assert(x =~= y);
    } else if k == x.len() || (k < y.len() && x[k] < y[k]) {
        assert(bytes_part_at(x, y, k));
    } else if k == y.len() || y[k] < x[k] {
        assert forall|i: int| 0 <= i < k implies #[trigger] y[i] == x[i] by {
            assert(x[i] == y[i]);
        }
        assert(bytes_part_at(y, x, k));
    } else {
        lemma_bytes_differ_first(x, y, k + 1);
    }
}

proof fn lemma_listings_agree(
    a: Seq<Seq<char>>,
    b: Seq<Seq<char>>,
    members: Set<Seq<char>>,
    i: int,
)
    requires
        lists_in_order(a, members),
        lists_in_order(b, members),
        0 <= i <= a.len(),
        i <= b.len(),
    ensures
        a.take(i) == b.take(i),
    decreases i,
{
    if i > 0 {
        let p = i - 1;
        lemma_listings_agree(a, b, members, p);
        let (x, y) = (a[p], b[p]);
        if x != y {
            assert(a.contains(x));
            assert(b.contains(y));
            assert(b.contains(x));
            assert(a.contains(y));
            let j = choose|j: int| 0 <= j < b.len() && b[j] == x;
            let k = choose|k: int| 0 <= k < a.len() && a[k] == y;
            lemma_name_lt_irreflexive(x);
            lemma_name_lt_irreflexive(y);
            if j < p {
                assert(a.take(p)[j] == b.take(p)[j]);
                assert(name_lt(a[j], a[p]));
            } else if k < p {
                assert(a.take(p)[k] == b.take(p)[k]);
                assert(name_lt(b[k], b[p]));
            } else {
                assert(name_lt(b[p], b[j]));
                assert(name_lt(a[p], a[k]));
                lemma_name_lt_transitive(x, y, x);
            }
        }
        assert(a.take(i) =~= a.take(p).push(x));
        assert(b.take(i) =~= b.take(p).push(y));
    } else {
        assert(a.take(0) =~= b.take(0));
    }
}

proof fn lemma_listing_not_longer(
    a: Seq<Seq<char>>,
    b: Seq<Seq<char>>,
    members: Set<Seq<char>>,
)
    requires
        lists_in_order(a, members),
        lists_in_order(b, members),
    ensures
        a.len() <= b.len(),
{
    if a.len() > b.len() {
        let n = b.len() as int;
        lemma_listings_agree(a, b, members, n);
        let x = a[n];
        assert(a.contains(x));
        assert(b.contains(x));
        let j = choose|j: int| 0 <= j < b.len() && b[j] == x;
        assert(a.take(n)[j] == b.take(n)[j]);
        assert(name_lt(a[j], a[n]));
        lemma_name_lt_irreflexive(x);
    }
}

/// There is but one way to list given names in order.
pub proof fn law_listing_is_unique(
    a: Seq<Seq<char>>,
    b: Seq<Seq<char>>,
    members: Set<Seq<char>>,
)
    requires
        lists_in_order(a, members),
        lists_in_order(b, members),
    ensures
        a == b,
{
    lemma_listing_not_longer(a, b, members);
    lemma_listing_not_longer(b, a, members);
    lemma_listings_agree(a, b, members, a.len() as int);
    assert(a.take(a.len() as int) =~= a);
    assert(b.take(b.len() as int) =~= b);
}

/// Without the name at `p`, the rest is still listed in order.
pub(crate) proof fn lemma_listing_without(
    names: Seq<Seq<char>>,
    members: Set<Seq<char>>,
    p: int,
)
    requires
        lists_in_order(names, members),
        0 <= p < names.len(),
    ensures
        lists_in_order(names.remove(p), members.remove(names[p])),
{
    let rest = names.remove(p);
    assert forall|i: int, j: int| 0 <= i < j < rest.len() implies #[trigger] name_lt(
        rest[i],
        rest[j],
    ) by {
        let a = if i < p { i } else { i + 1 };
        let b = if j < p { j } else { j + 1 };
        assert(name_lt(names[a], names[b]));
    }
    assert forall|n: Seq<char>| #[trigger] rest.contains(n) <==> members.remove(names[p]).contains(
        n,
    ) by {
        if rest.contains(n) {
            let i = choose|i: int| 0 <= i < rest.len() && rest[i] == n;
            let a = if i < p { i } else { i + 1 };
            assert(names[a] == n);
            assert(names.contains(n));
            lemma_name_lt_irreflexive(n);
            if a < p {
                assert(name_lt(names[a], names[p]));
            } else {
                assert(name_lt(names[p], names[a]));
            }
        }
        if members.contains(n) && n != names[p] {
            assert(names.contains(n));
            let a = choose|a: int| 0 <= a < names.len() && names[a] == n;
            let i = if a < p { a } else { a - 1 };
            assert(rest[i] == n);
        }
    }
}

/// How many of the sorted `names` come before `name`.
proof fn lemma_place_for(names: Seq<Seq<char>>, name: Seq<char>) -> (at: int)
    requires
        strictly_sorted(names),
        !names.contains(name),
    ensures
        0 <= at <= names.len(),
        forall|i: int| 0 <= i < at ==> name_lt(#[trigger] names[i], name),
        forall|i: int| at <= i < names.len() ==> name_lt(name, #[trigger] names[i]),
    decreases names.len(),
{
    if names.len() == 0 {
        0
    } else {
        let last = names.len() - 1;
        assert(names.contains(names[last]));
        lemma_name_lt_total(names[last], name);
        if name_lt(names[last], name) {
            assert forall|i: int| 0 <= i < names.len() implies name_lt(#[trigger] names[i], name) by {
                if i < last {
                    assert(name_lt(names[i], names[last]));
                    lemma_name_lt_transitive(names[i], names[last], name);
                }
            }
            names.len() as int
        } else {
            let rest = names.drop_last();
            assert forall|i: int, j: int| 0 <= i < j < rest.len() implies #[trigger] name_lt(
                rest[i],
                rest[j],
            ) by {
                assert(name_lt(names[i], names[j]));
            }
            assert(!rest.contains(name)) by {
                if rest.contains(name) {
                    let i = choose|i: int| 0 <= i < rest.len() && rest[i] == name;
                    assert(names[i] == name);
                }
            }
            let at = lemma_place_for(rest, name);
            assert forall|i: int| at <= i < names.len() implies name_lt(
                name,
                #[trigger] names[i],
            ) by {
                if i < last {
                    assert(rest[i] == names[i]);
                }
            }
            assert forall|i: int| 0 <= i < at implies name_lt(#[trigger] names[i], name) by {
                assert(rest[i] == names[i]);
            }
            at
        }
    }
}

/// Finitely many names can be listed in order.
pub(crate) proof fn lemma_listing_exists(members: Set<Seq<char>>) -> (names: Seq<Seq<char>>)
    requires
        members.finite(),
    ensures
        lists_in_order(names, members),
    decreases members.len(),
{
    if members.len() == 0 {
        assert(members =~= Set::empty());
        Seq::empty()
    } else {
        let name = members.choose();
        let rest = lemma_listing_exists(members.remove(name));
        let at = lemma_place_for(rest, name);
        let names = rest.insert(at, name);
        assert forall|i: int, j: int| 0 <= i < j < names.len() implies #[trigger] name_lt(
            names[i],
            names[j],
        ) by {
            let a = if i < at { i } else { i - 1 };
            let b = if j < at { j } else { j - 1 };
            if i == at {
                assert(name_lt(name, rest[b]));
            } else if j == at {
                assert(name_lt(rest[a], name));
            } else {
                assert(name_lt(rest[a], rest[b]));
            }
        }
        assert forall|n: Seq<char>| #[trigger] names.contains(n) <==> members.contains(n) by {
            if names.contains(n) && n != name {
                let i = choose|i: int| 0 <= i < names.len() && names[i] == n;
                let a = if i < at { i } else { i - 1 };
                assert(rest[a] == n);
                assert(rest.contains(n));
            }
            if n == name {
                assert(names[at] == n);
            } else if members.contains(n) {
                assert(rest.contains(n));
                let a = choose|a: int| 0 <= a < rest.len() && rest[a] == n;
                let i = if a < at { a } else { a + 1 };
                assert(names[i] == n);
            }
        }
        names
    }
}

/// Whether `a` comes before `b` in the order of names.
pub fn name_before(a: &str, b: &str) -> (before: bool)
    ensures
        before == name_lt(a@, b@),
{
    let x: &[u8] = a.as_bytes();
    let y: &[u8] = b.as_bytes();
    let ghost s = vstd::utf8::encode_utf8(a@);
    let ghost t = vstd::utf8::encode_utf8(b@);
    let mut k: usize = 0;
    while k < x.len() && k < y.len() && x[k] == y[k]
        invariant
            x@ == s,
            y@ == t,
            k <= x.len(),
            k <= y.len(),
            forall|i: int| 0 <= i < k ==> #[trigger] s[i] == t[i],
        decreases x.len() - k,
    {
        k += 1;
    }
    let before = k < y.len() && (k == x.len() || x[k] < y[k]);
    proof {
        if before {
            assert(bytes_part_at(s, t, k as int));
        } else if bytes_lt(s, t) {
            let l = choose|l: int| bytes_part_at(s, t, l);
            if l < k {
                assert(s[l] == t[l]);
            } else if l > k {
                assert(s[k as int] == t[k as int]);
            }
        }
    }
    before
}

/// Whether the two texts are the same.
pub fn same_text(a: &str, b: &str) -> (same: bool)
    ensures
        same == (a@ == b@),
{
    let x: &[u8] = a.as_bytes();
    let y: &[u8] = b.as_bytes();
    if x.len() != y.len() {
        return false;
    }
    let mut k: usize = 0;
    while k < x.len()
        invariant
            x@ == vstd::utf8::encode_utf8(a@),
            y@ == vstd::utf8::encode_utf8(b@),
            x.len() == y.len(),
            k <= x.len(),
            forall|i: int| 0 <= i < k ==> #[trigger] x[i] == y[i],
        decreases x.len() - k,
    {
        if x[k] != y[k] {
            return false;
        }
        k += 1;
    }
    proof {
        assert(x@ =~= y@);
        lemma_encoding_tells_texts_apart(a@, b@);
    }
    true
}

/// Something that goes by a name.
pub trait Named {
    /// Its name.
    spec fn called(&self) -> Seq<char>;

    /// Its name, to read.
    fn name(&self) -> (name: &str)
        ensures
            name@ == self.called(),
    ;
}

/// The names of `items`, in their order.
pub open spec fn names_of<T: Named>(items: Seq<T>) -> Seq<Seq<char>> {
    items.map_values(|item: T| item.called())
}

/// Where `name` stands among `items`, which are sorted by name: `Ok` with its
/// position, or `Err` with the position at which it would have to be inserted.
pub(crate) fn position_of<T: Named>(items: &Vec<T>, name: &str) -> (position: Result<usize, usize>)
    requires
        strictly_sorted(names_of(items@)),
    ensures
        match position {
            Ok(at) => at < items.len() && items[at as int].called() == name@,
            Err(at) => {
                &&& at <= items.len()
                &&& forall|i: int| 0 <= i < at ==> name_lt(#[trigger] items[i].called(), name@)
                &&& forall|i: int|
                    at <= i < items.len() ==> name_lt(name@, #[trigger] items[i].called())
            },
        },
{
    let mut low: usize = 0;
    let mut high: usize = items.len();
    while low < high
        invariant
            low <= high <= items.len(),
            strictly_sorted(names_of(items@)),
            forall|i: int| 0 <= i < low ==> name_lt(#[trigger] items[i].called(), name@),
            forall|i: int|
                high <= i < items.len() ==> !name_lt(#[trigger] items[i].called(), name@),
        decreases high - low,
    {
        let middle: usize = low + (high - low) / 2;
        if name_before(items[middle].name(), name) {
            proof {
                assert forall|i: int| 0 <= i <= middle implies name_lt(
                    #[trigger] items[i].called(),
                    name@,
                ) by {
                    if i < middle {
                        let names = names_of(items@);
                        assert(name_lt(names[i], names[middle as int]));
                        lemma_name_lt_transitive(names[i], names[middle as int], name@);
                    }
                }
            }
            low = middle + 1;
        } else {
            proof {
                assert forall|i: int| middle <= i < items.len() implies !name_lt(
                    #[trigger] items[i].called(),
                    name@,
                ) by {
                    let names = names_of(items@);
                    if middle < i && name_lt(names[i], name@) {
                        assert(name_lt(names[middle as int], names[i]));
                        lemma_name_lt_transitive(names[middle as int], names[i], name@);
                    }
                }
            }
            high = middle;
        }
    }
    if low < items.len() && same_text(items[low].name(), name) {
        return Ok(low);
    }
    proof {
        assert forall|i: int| low <= i < items.len() implies name_lt(
            name@,
            #[trigger] items[i].called(),
        ) by {
            let names = names_of(items@);
            assert(!name_lt(items[low as int].called(), name@));
            lemma_name_lt_total(items[low as int].called(), name@);
            if low < i {
                assert(name_lt(names[low as int], names[i]));
                lemma_name_lt_transitive(name@, names[low as int], names[i]);
            }
        }
    }
    Err(low)
}

/// What the strings of a list say.
pub open spec fn texts(list: Seq<String>) -> Seq<Seq<char>> {
    list.map_values(|s: String| s@)
}

/// The parts one after the other, with `separator` between neighbours.
pub open spec fn joined(parts: Seq<Seq<char>>, separator: Seq<char>) -> Seq<char>
    decreases parts.len(),
{
    if parts.len() == 0 {
        Seq::empty()
    } else if parts.len() == 1 {
        parts[0]
    } else {
        joined(parts.drop_last(), separator) + separator + parts.last()
    }
}

/// Joins the parts, with `separator` between neighbours.
pub fn join(parts: &Vec<String>, separator: &str) -> (all: String)
    ensures
        all@ == joined(texts(parts@), separator@),
{
    let mut all = String::new();
    let ghost views = texts(parts@);
    let mut i: usize = 0;
    while i < parts.len()
        invariant
            i <= parts.len(),
            views == texts(parts@),
            all@ == joined(views.take(i as int), separator@),
        decreases parts.len() - i,
    {
        let ghost before = all@;
        if i > 0 {
            all.append(separator);
        }
        all.append(parts[i].as_str());
        proof {
            let next = views.take(i + 1);
            assert(next.drop_last() =~= views.take(i as int));
            assert(next.last() == parts[i as int]@);
            if i == 0 {
                assert(all@ =~= next[0]);
            }
        }
        i += 1;
    }
    assert(views.take(views.len() as int) =~= views);
    all
}

/// The decimal digit for `d`.
pub open spec fn digit(d: nat) -> char
    recommends
        d < 10,
{
    ('0' as int + d) as char
}

/// `n` in decimal, without leading zeros.
pub open spec fn decimal(n: nat) -> Seq<char>
    decreases n,
{
    if n < 10 {
        seq![digit(n)]
    } else {
        decimal(n / 10).push(digit(n % 10))
    }
}

fn digit_text(d: usize) -> (text: &'static str)
    requires
        d < 10,
    ensures
        text@ == seq![digit(d as nat)],
{
    proof {
        reveal_strlit("0");
        reveal_strlit("1");
        reveal_strlit("2");
        reveal_strlit("3");
        reveal_strlit("4");
        reveal_strlit("5");
        reveal_strlit("6");
        reveal_strlit("7");
        reveal_strlit("8");
        reveal_strlit("9");
    }
    match d {
        0 => "0",
        1 => "1",
        2 => "2",
        3 => "3",
        4 => "4",
        5 => "5",
        6 => "6",
        7 => "7",
        8 => "8",
        _ => "9",
    }
}

/// Writes `n` in decimal.
pub fn number(n: usize) -> (text: String)
    ensures
        text@ == decimal(n as nat),
    decreases n,
{
    if n < 10 {
        digit_text(n).to_owned()
    } else {
        let mut text = number(n / 10);
        text.append(digit_text(n % 10));
        assert(text@ =~= decimal(n as nat));
        text
    }
}

/// The characters that Unicode calls white space (`White_Space`).
pub open spec fn is_white_space(c: char) -> bool {
    ||| '\u{9}' <= c <= '\u{d}'
    ||| c == ' '
    ||| c == '\u{85}'
    ||| c == '\u{a0}'
    ||| c == '\u{1680}'
    ||| '\u{2000}' <= c <= '\u{200a}'
    ||| c == '\u{2028}'
    ||| c == '\u{2029}'
    ||| c == '\u{202f}'
    ||| c == '\u{205f}'
    ||| c == '\u{3000}'
}

/// The text without white space at either end.
pub open spec fn trimmed(s: Seq<char>) -> Seq<char>
    decreases s.len(),
{
    if s.len() > 0 && is_white_space(s.first()) {
        trimmed(s.drop_first())
    } else if s.len() > 0 && is_white_space(s.last()) {
        trimmed(s.drop_last())
    } else {
        s
    }
}

fn is_white(c: char) -> (white: bool)
    ensures
        white == is_white_space(c),
{
    ('\u{9}' <= c && c <= '\u{d}') || c == ' ' || c == '\u{85}' || c == '\u{a0}' || c == '\u{1680}'
        || ('\u{2000}' <= c && c <= '\u{200a}') || c == '\u{2028}' || c == '\u{2029}' || c
        == '\u{202f}' || c == '\u{205f}' || c == '\u{3000}'
}

/// Takes off the white space at either end.
pub fn trim(s: &str) -> (inner: &str)
    ensures
        inner@ == trimmed(s@),
{
    let mut start: usize = 0;
    let mut end: usize = s.unicode_len();
    assert(s@.subrange(0, end as int) =~= s@);
    while start < end && is_white(s.get_char(start))
        invariant
            start <= end,
            end == s@.len(),
            trimmed(s@) == trimmed(s@.subrange(start as int, end as int)),
        decreases end - start,
    {
        assert(s@.subrange(start as int, end as int).drop_first() =~= s@.subrange(
            start + 1,
            end as int,
        ));
        start += 1;
    }
    while start < end && is_white(s.get_char(end - 1))
        invariant
            start <= end <= s@.len(),
            start < end ==> !is_white_space(s@[start as int]),
            trimmed(s@) == trimmed(s@.subrange(start as int, end as int)),
        decreases end - start,
    {
        assert(s@.subrange(start as int, end as int).drop_last() =~= s@.subrange(
            start as int,
            end - 1,
        ));
        end -= 1;
    }
    s.substring_char(start, end)
}

/// The encodings of two characters differ at some byte, and there the smaller character
/// has the smaller byte.
proof fn lemma_scalars_part(c: u32, d: u32) -> (k: int)
    requires
        vstd::utf8::is_scalar(c),
        vstd::utf8::is_scalar(d),
        c < d,
    ensures
        0 <= k < vstd::utf8::encode_scalar(c).len(),
        k < vstd::utf8::encode_scalar(d).len(),
        forall|i: int|
            0 <= i < k ==> #[trigger] vstd::utf8::encode_scalar(c)[i]
                == vstd::utf8::encode_scalar(d)[i],
        vstd::utf8::encode_scalar(c)[k] < vstd::utf8::encode_scalar(d)[k],
{
    assert(c <= 0x7f && c < d && d <= 0x7f ==> ((c & 0x7F) as u8) < ((d & 0x7F) as u8))
        by (bit_vector);
    assert(((c & 0x7F) as u8) < 0x80) by (bit_vector);
    assert((0xC0 | ((d >> 6) & 0x1F) as u8) >= 0xC0 && (0xC0 | ((c >> 6) & 0x1F) as u8) < 0xE0)
        by (bit_vector);
    assert((0xE0 | ((d >> 12) & 0x0F) as u8) >= 0xE0 && (0xE0 | ((c >> 12) & 0x0F) as u8) < 0xF0)
        by (bit_vector);
    assert((0xF0 | ((d >> 18) & 0x7) as u8) >= 0xF0) by (bit_vector);
    assert(c < d && d <= 0x7FF ==> (0xC0 | ((c >> 6) & 0x1F) as u8) < (0xC0 | ((d >> 6) & 0x1F) as u8)
        || ((0xC0 | ((c >> 6) & 0x1F) as u8) == (0xC0 | ((d >> 6) & 0x1F) as u8) && (0x80 | (c
        & 0x3F) as u8) < (0x80 | (d & 0x3F) as u8))) by (bit_vector);
    assert(c < d && d <= 0xFFFF ==> (0xE0 | ((c >> 12) & 0x0F) as u8) < (0xE0 | ((d >> 12)
        & 0x0F) as u8) || ((0xE0 | ((c >> 12) & 0x0F) as u8) == (0xE0 | ((d >> 12) & 0x0F) as u8)
        && ((0x80 | ((c >> 6) & 0x3F) as u8) < (0x80 | ((d >> 6) & 0x3F) as u8) || ((0x80 | ((c
        >> 6) & 0x3F) as u8) == (0x80 | ((d >> 6) & 0x3F) as u8) && (0x80 | (c & 0x3F) as u8) < (
    0x80 | (d & 0x3F) as u8))))) by (bit_vector);
    assert(c < d && d <= 0x10FFFF ==> (0xF0 | ((c >> 18) & 0x7) as u8) < (0xF0 | ((d >> 18)
        & 0x7) as u8) || ((0xF0 | ((c >> 18) & 0x7) as u8) == (0xF0 | ((d >> 18) & 0x7) as u8) && ((
    0x80 | ((c >> 12) & 0x3F) as u8) < (0x80 | ((d >> 12) & 0x3F) as u8) || ((0x80 | ((c >> 12)
        & 0x3F) as u8) == (0x80 | ((d >> 12) & 0x3F) as u8) && ((0x80 | ((c >> 6) & 0x3F) as u8) < (
    0x80 | ((d >> 6) & 0x3F) as u8) || ((0x80 | ((c >> 6) & 0x3F) as u8) == (0x80 | ((d >> 6)
        & 0x3F) as u8) && (0x80 | (c & 0x3F) as u8) < (0x80 | (d & 0x3F) as u8))))))) by (bit_vector);
    let (x, y) = (vstd::utf8::encode_scalar(c), vstd::utf8::encode_scalar(d));
    if x[0] != y[0] {
        0
    } else if x[1] != y[1] {
        1
    } else if x[2] != y[2] {
        2
    } else {
        3
    }
}

proof fn lemma_code_points(c: char, d: char)
    ensures
        c < d <==> (c as u32) < (d as u32),
{
}

proof fn lemma_encoding_adds_up(a: Seq<char>, b: Seq<char>)
    ensures
        vstd::utf8::encode_utf8(a + b) == vstd::utf8::encode_utf8(a) + vstd::utf8::encode_utf8(b),
    decreases a.len(),
{
    if a.len() == 0 {
        assert(a + b =~= b);
        assert(vstd::utf8::encode_utf8(a) + vstd::utf8::encode_utf8(b)
            =~= vstd::utf8::encode_utf8(b));
    } else {
        assert((a + b).drop_first() =~= a.drop_first() + b);
        lemma_encoding_adds_up(a.drop_first(), b);
        assert(vstd::utf8::encode_utf8(a + b) =~= vstd::utf8::encode_utf8(a)
            + vstd::utf8::encode_utf8(b));
    }
}

/// What parts two texts at `k` parts their encodings.
proof fn lemma_parted_texts(a: Seq<char>, b: Seq<char>, k: int)
    requires
        0 <= k <= a.len(),
        k < b.len(),
        a.take(k) == b.take(k),
        k < a.len() ==> a[k] < b[k],
    ensures
        name_lt(a, b),
{
    let common = vstd::utf8::encode_utf8(a.take(k));
    let (x, y) = (vstd::utf8::encode_utf8(a), vstd::utf8::encode_utf8(b));
    let (s, t) = (vstd::utf8::encode_utf8(a.skip(k)), vstd::utf8::encode_utf8(b.skip(k)));
    assert(a =~= a.take(k) + a.skip(k));
    assert(b =~= b.take(k) + b.skip(k));
    lemma_encoding_adds_up(a.take(k), a.skip(k));
    lemma_encoding_adds_up(b.take(k), b.skip(k));
    assert(x == common + s && y == common + t);
    vstd::utf8::char_is_scalar(b[k]);
    assert(b.skip(k)[0] == b[k]);
    if k == a.len() {
        assert(a.skip(k) =~= Seq::empty());
        assert(bytes_part_at(x, y, common.len() as int));
    } else {
        vstd::utf8::char_is_scalar(a[k]);
        assert(a.skip(k)[0] == a[k]);
        lemma_code_points(a[k], b[k]);
        let m = lemma_scalars_part(a[k] as u32, b[k] as u32);
        let (c, d) = (
            vstd::utf8::encode_scalar(a[k] as u32),
            vstd::utf8::encode_scalar(b[k] as u32),
        );
        let at = common.len() + m;
        assert(s == c + vstd::utf8::encode_utf8(a.skip(k).drop_first()));
        assert(t == d + vstd::utf8::encode_utf8(b.skip(k).drop_first()));
        assert forall|i: int| 0 <= i < at implies #[trigger] x[i] == y[i] by {
            if i >= common.len() {
                assert(c[i - common.len()] == d[i - common.len()]);
            }
        }
        assert(bytes_part_at(x, y, at));
    }
}

/// Texts that are not the same part somewhere.
proof fn lemma_texts_part(a: Seq<char>, b: Seq<char>, k: int) -> (p: int)
    requires
        a != b,
        0 <= k <= a.len(),
        k <= b.len(),
        a.take(k) == b.take(k),
    ensures
        k <= p <= a.len(),
        p <= b.len(),
        a.take(p) == b.take(p),
        p < a.len() || p < b.len(),
        p < a.len() && p < b.len() ==> a[p] != b[p],
    decreases a.len() - k,
{
    if k < a.len() && k < b.len() && a[k] == b[k] {
        assert(a.take(k + 1) =~= a.take(k).push(a[k]));
        assert(b.take(k + 1) =~= b.take(k).push(b[k]));
        lemma_texts_part(a, b, k + 1)
    } else {
        if k == a.len() && k == b.len() {
            assert(a.take(k) =~= a);
            assert(b.take(k) =~= b);
        }
        k
    }
}

/// Names are ordered as in a dictionary: the first character in which two names differ
/// decides, by its Unicode code point, and a name comes before all that go on from it.
pub proof fn law_names_go_by_first_difference(a: Seq<char>, b: Seq<char>)
    ensures
        name_lt(a, b) <==> exists|k: int|
            {
                &&& 0 <= k <= a.len()
                &&& k < b.len()
                &&& #[trigger] a.take(k) == b.take(k)
                &&& k < a.len() ==> (a[k] as u32) < (b[k] as u32)
            },
{
    if exists|k: int|
        {
            &&& 0 <= k <= a.len()
            &&& k < b.len()
            &&& #[trigger] a.take(k) == b.take(k)
            &&& k < a.len() ==> (a[k] as u32) < (b[k] as u32)
        } {
        let k = choose|k: int|
            {
                &&& 0 <= k <= a.len()
                &&& k < b.len()
                &&& #[trigger] a.take(k) == b.take(k)
                &&& k < a.len() ==> (a[k] as u32) < (b[k] as u32)
            };
        if k < a.len() {
            lemma_code_points(a[k], b[k]);
        }
        lemma_parted_texts(a, b, k);
    }
    if name_lt(a, b) {
        lemma_name_lt_irreflexive(a);
        assert(a.take(0) =~= b.take(0));
        let p = lemma_texts_part(a, b, 0);
        if p < a.len() && p < b.len() {
            lemma_code_points(a[p], b[p]);
        }
        if p == b.len() || (p < a.len() && b[p] < a[p]) {
            lemma_parted_texts(b, a, p);
            lemma_name_lt_transitive(a, b, a);
        }
        assert(a.take(p) == b.take(p));
    }
}

/// A listing holds exactly the members, and of any two names the earlier one comes first.
pub proof fn law_listing_is_sorted(names: Seq<Seq<char>>, members: Set<Seq<char>>)
    requires
        lists_in_order(names, members),
    ensures
        names.to_set() == members,
        forall|i: int, j: int|
            0 <= i < names.len() && 0 <= j < names.len() ==> (#[trigger] name_lt(
                names[i],
                names[j],
            ) <==> i < j),
{
    assert forall|n: Seq<char>| names.to_set().contains(n) <==> members.contains(n) by {
        assert(names.contains(n) <==> members.contains(n));
    }
    assert(names.to_set() =~= members);
    assert forall|i: int, j: int| 0 <= i < names.len() && 0 <= j < names.len() implies (
    #[trigger] name_lt(names[i], names[j]) <==> i < j) by {
        lemma_name_lt_irreflexive(names[i]);
        if j < i && name_lt(names[i], names[j]) {
            assert(name_lt(names[j], names[i]));
            lemma_name_lt_transitive(names[i], names[j], names[i]);
        }
    }
}

/// The strings of a list, one by one.
pub proof fn law_texts_are_the_strings(list: Seq<String>)
    ensures
        texts(list).len() == list.len(),
        forall|i: int| 0 <= i < list.len() ==> #[trigger] texts(list)[i] == list[i]@,
{
}

/// One part is joined as it is, and two lists of parts are joined by the separator.
pub proof fn law_joining(a: Seq<Seq<char>>, b: Seq<Seq<char>>, part: Seq<char>, separator: Seq<char>)
    ensures
        joined(Seq::empty(), separator) == Seq::<char>::empty(),
        joined(seq![part], separator) == part,
        a.len() > 0 && b.len() > 0 ==> joined(a + b, separator) == joined(a, separator) + separator
            + joined(b, separator),
    decreases b.len(),
{
    if a.len() > 0 && b.len() > 0 {
        assert((a + b).drop_last() =~= a + b.drop_last());
        if b.len() == 1 {
            assert(a + b.drop_last() =~= a);
        } else {
            law_joining(a, b.drop_last(), part, separator);
            assert(joined(a, separator) + separator + joined(b, separator) =~= joined(a, separator)
                + separator + joined(b.drop_last(), separator) + separator + b.last());
        }
    }
}

/// A digit is written by its figure, and behind a number it adds to ten times that number.
pub proof fn law_decimal_places(n: nat, d: nat)
    requires
        d < 10,
    ensures
        decimal(d) == seq!["0123456789"@[d as int]],
        n > 0 ==> decimal(10 * n + d) == decimal(n).push("0123456789"@[d as int]),
{
    reveal_strlit("0123456789");
    if n > 0 {
        assert((10 * n + d) / 10 == n);
        assert((10 * n + d) % 10 == d);
    }
}

/// What trimming takes off at either end is white space, and what it leaves neither
/// starts nor ends with white space.
pub proof fn law_trimming(s: Seq<char>) -> (cut: (int, int))
    ensures
        0 <= cut.0 <= cut.1 <= s.len(),
        trimmed(s) == s.subrange(cut.0, cut.1),
        forall|i: int|
            0 <= i < s.len() && !(cut.0 <= i < cut.1) ==> is_white_space(#[trigger] s[i]),
        cut.0 < cut.1 ==> !is_white_space(s[cut.0]) && !is_white_space(s[cut.1 - 1]),
    decreases s.len(),
{
    if s.len() > 0 && is_white_space(s.first()) {
        let rest = s.drop_first();
        let (i, j) = law_trimming(rest);
        assert(rest.subrange(i, j) =~= s.subrange(i + 1, j + 1));
        assert forall|k: int| 0 <= k < s.len() && !(i + 1 <= k < j + 1) implies is_white_space(
            #[trigger] s[k],
        ) by {
            if k > 0 {
                assert(rest[k - 1] == s[k]);
            }
        }
        (i + 1, j + 1)
    } else if s.len() > 0 && is_white_space(s.last()) {
        let rest = s.drop_last();
        let (i, j) = law_trimming(rest);
        assert(rest.subrange(i, j) =~= s.subrange(i, j));
        assert forall|k: int| 0 <= k < s.len() && !(i <= k < j) implies is_white_space(
            #[trigger] s[k],
        ) by {
            if k < rest.len() {
                assert(rest[k] == s[k]);
            }
        }
        (i, j)
    } else {
        assert(s.subrange(0, s.len() as int) =~= s);
        (0, s.len() as int)
    }
}

/// White space is what Unicode lists as such: twenty-five code points.
pub proof fn law_white_space(c: char)
    ensures
        is_white_space(c) <==> seq![
            0x9u32,
            0xa,
            0xb,
            0xc,
            0xd,
            0x20,
            0x85,
            0xa0,
            0x1680,
            0x2000,
            0x2001,
            0x2002,
            0x2003,
            0x2004,
            0x2005,
            0x2006,
            0x2007,
            0x2008,
            0x2009,
            0x200a,
            0x2028,
            0x2029,
            0x202f,
            0x205f,
            0x3000,
        ].contains(c as u32),
{
    let list = seq![
        0x9u32,
        0xa,
        0xb,
        0xc,
        0xd,
        0x20,
        0x85,
        0xa0,
        0x1680,
        0x2000,
        0x2001,
        0x2002,
        0x2003,
        0x2004,
        0x2005,
        0x2006,
        0x2007,
        0x2008,
        0x2009,
        0x200a,
        0x2028,
        0x2029,
        0x202f,
        0x205f,
        0x3000,
    ];
    assert(list.len() == 25);
    assert(list[0] == 0x9 && list[1] == 0xa && list[2] == 0xb && list[3] == 0xc && list[4] == 0xd);
    assert(list[5] == 0x20 && list[6] == 0x85 && list[7] == 0xa0 && list[8] == 0x1680);
    assert(list[9] == 0x2000 && list[10] == 0x2001 && list[11] == 0x2002 && list[12] == 0x2003);
    assert(list[13] == 0x2004 && list[14] == 0x2005 && list[15] == 0x2006 && list[16] == 0x2007);
    assert(list[17] == 0x2008 && list[18] == 0x2009 && list[19] == 0x200a && list[20] == 0x2028);
    assert(list[21] == 0x2029 && list[22] == 0x202f && list[23] == 0x205f && list[24] == 0x3000);
}

} // verus!
