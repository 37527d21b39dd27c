//! Lexicographic order, and sets and maps kept in that order.

use vstd::prelude::*;

use crate::views::{push_view, views};

verus! {

/// How one key stands to another.
#[derive(Debug, Clone, Copy, PartialEq, Eq, Structural)]
pub enum Position {
    Before,
    Same,
    After,
}

/// `a` comes before `b`: they agree up to an index at which `a` ends or holds
/// the smaller number.
pub open spec fn precedes(a: Seq<int>, b: Seq<int>) -> bool {
    exists|k: int| diverges_at(a, b, k)
}

pub open spec fn diverges_at(a: Seq<int>, b: Seq<int>, k: int) -> bool {
    &&& 0 <= k <= a.len()
    &&& k < b.len()
    &&& a.take(k) == b.take(k)
    &&& k < a.len() ==> a[k] < b[k]
}

pub open spec fn position(a: Seq<int>, b: Seq<int>) -> Position {
    if a == b {
        Position::Same
    } else if precedes(a, b) {
        Position::Before
    } else {
        Position::After
    }
}

pub proof fn lemma_precedes_transitive(a: Seq<int>, b: Seq<int>, c: Seq<int>)
    requires
        precedes(a, b),
        precedes(b, c),
    ensures
        precedes(a, c),
{
    let i = choose|k: int| diverges_at(a, b, k);
    let j = choose|k: int| diverges_at(b, c, k);
    let k = if i < j {
        i
    } else {
        j
    };
    assert(a.take(k) =~= a.take(i).take(k));
    assert(b.take(k) =~= b.take(i).take(k));
    assert(b.take(k) =~= b.take(j).take(k));
    assert(c.take(k) =~= c.take(j).take(k));
    if i < j {
        assert(b[i] == b.take(j)[i]);
        assert(c[i] == c.take(j)[i]);
    } else if j < i {
        assert(a[j] == a.take(i)[j]);
        assert(b[j] == b.take(i)[j]);
    }
    assert(diverges_at(a, c, k));
}

pub proof fn lemma_precedes_irreflexive(a: Seq<int>, b: Seq<int>)
    requires
        precedes(a, b),
    ensures
        a != b,
        !precedes(b, a),
{
    let i = choose|k: int| diverges_at(a, b, k);
    if a == b {
        assert(false);
    }
    if precedes(b, a) {
        lemma_precedes_transitive(a, b, a);
        let j = choose|k: int| diverges_at(a, a, k);
        assert(false);
    }
}

/// A value that the ordered collections can be keyed by.
pub trait OrderedKey: View + Sized {
    spec fn codes(v: Self::V) -> Seq<int>;

    proof fn lemma_codes_injective(a: Self::V, b: Self::V)
        requires
            Self::codes(a) == Self::codes(b),
        ensures
            a == b,
    ;

    fn stands_to(&self, other: &Self) -> (r: Position)
        ensures
            r == position(Self::codes(self@), Self::codes(other@)),
            r == Position::Same <==> self@ == other@,
            r == Position::After <==> precedes(Self::codes(other@), Self::codes(self@)),
    ;
}

pub open spec fn char_codes(s: Seq<char>) -> Seq<int> {
    s.map_values(|c: char| c as int)
}

pub open spec fn byte_codes(s: Seq<u8>) -> Seq<int> {
    s.map_values(|b: u8| b as int)
}

/// `a` comes before `b` in the order of their code points.
pub open spec fn text_before(a: Seq<char>, b: Seq<char>) -> bool {
    precedes(char_codes(a), char_codes(b))
}

pub open spec fn bytes_before(a: Seq<u8>, b: Seq<u8>) -> bool {
    precedes(byte_codes(a), byte_codes(b))
}

pub proof fn lemma_char_codes_injective(a: Seq<char>, b: Seq<char>)
    requires
        char_codes(a) == char_codes(b),
    ensures
        a == b,
{
    assert(a.len() == char_codes(a).len());
    assert(b.len() == char_codes(b).len());
    assert forall|i: int| 0 <= i < a.len() implies a[i] == b[i] by {
        assert(char_codes(a)[i] == a[i] as int);
        assert(char_codes(b)[i] == b[i] as int);
    }
    assert(a =~= b);
}

pub proof fn lemma_byte_codes_injective(a: Seq<u8>, b: Seq<u8>)
    requires
        byte_codes(a) == byte_codes(b),
    ensures
        a == b,
{
    assert(a.len() == byte_codes(a).len());
    assert(b.len() == byte_codes(b).len());
    assert forall|i: int| 0 <= i < a.len() implies a[i] == b[i] by {
        assert(byte_codes(a)[i] == a[i] as int);
        assert(byte_codes(b)[i] == b[i] as int);
    }
    assert(a =~= b);
}

proof fn lemma_diverges(a: Seq<int>, b: Seq<int>, k: int)
    requires
        0 <= k <= a.len(),
        k <= b.len(),
        forall|j: int| 0 <= j < k ==> a[j] == b[j],
    ensures
        k == a.len() && k == b.len() ==> a == b,
        k < b.len() && (k == a.len() || a[k] < b[k]) ==> precedes(a, b) && !precedes(b, a) && a
            != b,
        k < a.len() && (k == b.len() || b[k] < a[k]) ==> precedes(b, a) && !precedes(a, b) && a
            != b,
{
    assert(a.take(k) =~= b.take(k));
    if k == a.len() && k == b.len() {
        assert(a =~= b);
    } else if k < b.len() && (k == a.len() || a[k] < b[k]) {
        assert(diverges_at(a, b, k));
        lemma_precedes_irreflexive(a, b);
    } else if k < a.len() && (k == b.len() || b[k] < a[k]) {
        assert(diverges_at(b, a, k));
        lemma_precedes_irreflexive(b, a);
    }
}

/// Of two texts one comes before the other, or they are equal.
pub proof fn lemma_text_total(a: Seq<char>, b: Seq<char>)
    ensures
        a == b || text_before(a, b) || text_before(b, a),
        !(text_before(a, b) && text_before(b, a)),
        a == b ==> !text_before(a, b),
    decreases a.len(),
{
    let x = char_codes(a);
    let y = char_codes(b);
    lemma_total_from(x, y, 0);
    if x == y {
        lemma_char_codes_injective(a, b);
    }
}

proof fn lemma_total_from(a: Seq<int>, b: Seq<int>, k: int)
    requires
        0 <= k <= a.len(),
        k <= b.len(),
        forall|j: int| 0 <= j < k ==> a[j] == b[j],
    ensures
        a == b || precedes(a, b) || precedes(b, a),
        !(precedes(a, b) && precedes(b, a)),
        a == b ==> !precedes(a, b),
    decreases a.len() - k,
{
    if k < a.len() && k < b.len() && a[k] == b[k] {
        lemma_total_from(a, b, k + 1);
    } else {
        lemma_diverges(a, b, k);
        if a == b && precedes(a, b) {
            lemma_precedes_irreflexive(a, b);
        }
    }
}

/// How two character lists stand to each other.
pub fn chars_position(a: &[char], b: &[char]) -> (r: Position)
    ensures
        r == position(char_codes(a@), char_codes(b@)),
        r == Position::Same <==> a@ == b@,
        r == Position::After <==> text_before(b@, a@),
{
    let mut k: usize = 0;
    while k < a.len() && k < b.len()
        invariant
            k <= a@.len(),
            k <= b@.len(),
            forall|j: int| 0 <= j < k ==> char_codes(a@)[j] == char_codes(b@)[j],
        decreases a@.len() - k,
    {
        if a[k] != b[k] {
            proof {
                lemma_diverges(char_codes(a@), char_codes(b@), k as int);
            }
            if a[k] < b[k] {
                return Position::Before;
            } else {
                return Position::After;
            }
        }
        k = k + 1;
    }
    proof {
        lemma_diverges(char_codes(a@), char_codes(b@), k as int);
        if char_codes(a@) == char_codes(b@) {
            lemma_char_codes_injective(a@, b@);
        }
    }
    if k < b.len() {
        Position::Before
    } else if k < a.len() {
        Position::After
    } else {
        Position::Same
    }
}

/// How two byte lists stand to each other.
pub fn bytes_position(a: &[u8], b: &[u8]) -> (r: Position)
    ensures
        r == position(byte_codes(a@), byte_codes(b@)),
        r == Position::Same <==> a@ == b@,
        r == Position::After <==> bytes_before(b@, a@),
{
    let mut k: usize = 0;
    while k < a.len() && k < b.len()
        invariant
            k <= a@.len(),
            k <= b@.len(),
            forall|j: int| 0 <= j < k ==> byte_codes(a@)[j] == byte_codes(b@)[j],
        decreases a@.len() - k,
    {
        if a[k] != b[k] {
            proof {
                lemma_diverges(byte_codes(a@), byte_codes(b@), k as int);
            }
            if a[k] < b[k] {
                return Position::Before;
            } else {
                return Position::After;
            }
        }
        k = k + 1;
    }
    proof {
        lemma_diverges(byte_codes(a@), byte_codes(b@), k as int);
        if byte_codes(a@) == byte_codes(b@) {
            lemma_byte_codes_injective(a@, b@);
        }
    }
    if k < b.len() {
        Position::Before
    } else if k < a.len() {
        Position::After
    } else {
        Position::Same
    }
}

impl OrderedKey for String {
    open spec fn codes(v: Seq<char>) -> Seq<int> {
        char_codes(v)
    }

    proof fn lemma_codes_injective(a: Seq<char>, b: Seq<char>) {
        lemma_char_codes_injective(a, b);
    }

    fn stands_to(&self, other: &Self) -> (r: Position) {
        let a = crate::text::chars_of(self.as_str());
        let b = crate::text::chars_of(other.as_str());
        chars_position(a.as_slice(), b.as_slice())
    }
}

impl OrderedKey for Vec<u8> {
    open spec fn codes(v: Seq<u8>) -> Seq<int> {
        byte_codes(v)
    }

    proof fn lemma_codes_injective(a: Seq<u8>, b: Seq<u8>) {
        lemma_byte_codes_injective(a, b);
    }

    fn stands_to(&self, other: &Self) -> (r: Position) {
        bytes_position(self.as_slice(), other.as_slice())
    }
}

impl OrderedKey for u64 {
    open spec fn codes(v: u64) -> Seq<int> {
        seq![v as int]
    }

    proof fn lemma_codes_injective(a: u64, b: u64) {
        assert(seq![a as int][0] == seq![b as int][0]);
    }

    fn stands_to(&self, other: &Self) -> (r: Position) {
        proof {
            lemma_diverges(seq![*self as int], seq![*other as int], 0);
            if *self == *other {
                lemma_total_from(seq![*self as int], seq![*other as int], 0);
            }
        }
        if *self < *other {
            Position::Before
        } else if *self == *other {
            Position::Same
        } else {
            Position::After
        }
    }
}

/// Every key comes before all that follow it.
pub open spec fn increasing<K: OrderedKey>(keys: Seq<K::V>) -> bool {
    forall|i: int, j: int|
        0 <= i < j < keys.len() ==> precedes(K::codes(#[trigger] keys[i]), K::codes(#[trigger] keys[j]))
}

/// Strictly increasing texts.
pub open spec fn increasing_texts(s: Seq<Seq<char>>) -> bool {
    increasing::<String>(s)
}

proof fn lemma_increasing_distinct<K: OrderedKey>(keys: Seq<K::V>, i: int, j: int)
    requires
        increasing::<K>(keys),
        0 <= i < keys.len(),
        0 <= j < keys.len(),
        keys[i] == keys[j],
    ensures
        i == j,
{
    if i < j {
        lemma_precedes_irreflexive(K::codes(keys[i]), K::codes(keys[j]));
    } else if j < i {
        lemma_precedes_irreflexive(K::codes(keys[j]), K::codes(keys[i]));
    }
}

proof fn lemma_increasing_insert<K: OrderedKey>(keys: Seq<K::V>, at: int, key: K::V)
    requires
        increasing::<K>(keys),
        0 <= at <= keys.len(),
        forall|i: int| 0 <= i < at ==> precedes(K::codes(#[trigger] keys[i]), K::codes(key)),
        forall|i: int| at <= i < keys.len() ==> precedes(K::codes(key), K::codes(#[trigger] keys[i])),
    ensures
        increasing::<K>(keys.insert(at, key)),
{
    let s = keys.insert(at, key);
    assert forall|i: int, j: int| 0 <= i < j < s.len() implies precedes(
        K::codes(#[trigger] s[i]),
        K::codes(#[trigger] s[j]),
    ) by {
        let a = if i < at {
            i
        } else {
            i - 1
        };
        let b = if j < at {
            j
        } else {
            j - 1
        };
        if i != at {
            assert(s[i] == keys[a]);
        }
        if j != at {
            assert(s[j] == keys[b]);
        }
    }
}

/// All but the last of an increasing list are increasing.
pub proof fn lemma_increasing_drop_last<K: OrderedKey>(keys: Seq<K::V>)
    requires
        increasing::<K>(keys),
        keys.len() > 0,
    ensures
        increasing::<K>(keys.drop_last()),
{
    let s = keys.drop_last();
    assert forall|i: int, j: int| 0 <= i < j < s.len() implies precedes(
        K::codes(#[trigger] s[i]),
        K::codes(#[trigger] s[j]),
    ) by {
        assert(s[i] == keys[i] && s[j] == keys[j]);
    }
}

/// An increasing list of byte keys is in the order of the bytes.
pub proof fn lemma_increasing_bytes(keys: Seq<Seq<u8>>, i: int, j: int)
    requires
        increasing::<Vec<u8>>(keys),
        0 <= i < j < keys.len(),
    ensures
        bytes_before(keys[i], keys[j]),
{
    assert(precedes(Vec::<u8>::codes(keys[i]), Vec::<u8>::codes(keys[j])));
}

/// An increasing list of texts is in the order of the texts.
pub proof fn lemma_increasing_texts(keys: Seq<Seq<char>>, i: int, j: int)
    requires
        increasing_texts(keys),
        0 <= i < j < keys.len(),
    ensures
        text_before(keys[i], keys[j]),
{
    assert(precedes(String::codes(keys[i]), String::codes(keys[j])));
}

/// Two increasing lists with the same members are the same list.
pub proof fn lemma_increasing_unique<K: OrderedKey>(a: Seq<K::V>, b: Seq<K::V>)
    requires
        increasing::<K>(a),
        increasing::<K>(b),
        forall|k: K::V| a.contains(k) <==> b.contains(k),
    ensures
        a == b,
    decreases a.len(),
{
    if a.len() == 0 {
        if b.len() > 0 {
            assert(b.contains(b[0]));
            assert(a.contains(b[0]));
        }
        assert(a =~= b);
    } else {
        assert(a.contains(a.last()));
        assert(b.contains(a.last()));
        assert(b.contains(b.last()));
        assert(a.contains(b.last()));
        let i = choose|i: int| 0 <= i < b.len() && b[i] == a.last();
        let j = choose|j: int| 0 <= j < a.len() && a[j] == b.last();
        if i != b.len() - 1 {
            assert(precedes(K::codes(b[i]), K::codes(b[b.len() - 1])));
            if j != a.len() - 1 {
                assert(precedes(K::codes(a[j]), K::codes(a[a.len() - 1])));
                lemma_precedes_irreflexive(K::codes(a.last()), K::codes(b.last()));
            } else {
                lemma_precedes_irreflexive(K::codes(a.last()), K::codes(b.last()));
            }
        }
        assert(a.last() == b.last());
        let x = a.drop_last();
        let y = b.drop_last();
        assert forall|k: K::V| x.contains(k) <==> y.contains(k) by {
            if x.contains(k) {
                let n = choose|n: int| 0 <= n < x.len() && x[n] == k;
                assert(a[n] == k);
                assert(a.contains(k));
                let m = choose|m: int| 0 <= m < b.len() && b[m] == k;
                if m == b.len() - 1 {
                    lemma_increasing_distinct::<K>(a, n, a.len() - 1);
                }
                assert(y[m] == k);
            }
            if y.contains(k) {
                let n = choose|n: int| 0 <= n < y.len() && y[n] == k;
                assert(b[n] == k);
                assert(b.contains(k));
                let m = choose|m: int| 0 <= m < a.len() && a[m] == k;
                if m == a.len() - 1 {
                    lemma_increasing_distinct::<K>(b, n, b.len() - 1);
                }
                assert(x[m] == k);
            }
        }
        lemma_increasing_unique::<K>(x, y);
        assert(a =~= x.push(a.last()));
        assert(b =~= y.push(b.last()));
    }
}

/// The place of `key` in `keys`: its index if it is there, else where it would go.
fn search<K: OrderedKey>(keys: &Vec<K>, key: &K) -> (r: Result<usize, usize>)
    requires
        increasing::<K>(views(keys@)),
    ensures
        match r {
            Ok(i) => i < keys@.len() && keys@[i as int]@ == key@,
            Err(at) => {
                &&& at <= keys@.len()
                &&& !views(keys@).contains(key@)
                &&& forall|i: int|
                    0 <= i < at ==> precedes(K::codes(#[trigger] views(keys@)[i]), K::codes(key@))
                &&& forall|i: int|
                    at <= i < keys@.len() ==> precedes(
                        K::codes(key@),
                        K::codes(#[trigger] views(keys@)[i]),
                    )
            },
        },
{
    let ghost all = views(keys@);
    let mut low: usize = 0;
    let mut high: usize = keys.len();
    while low < high
        invariant
            all == views(keys@),
            increasing::<K>(all),
            low <= high <= keys@.len(),
            forall|i: int| 0 <= i < low ==> precedes(K::codes(#[trigger] all[i]), K::codes(key@)),
            forall|i: int|
                high <= i < all.len() ==> precedes(K::codes(key@), K::codes(#[trigger] all[i])),
        decreases high - low,
    {
        let mid: usize = low + (high - low) / 2;
        let ghost here = all[mid as int];
        match keys[mid].stands_to(key) {
            Position::Same => {
                return Ok(mid);
            },
            Position::Before => {
                assert forall|i: int| 0 <= i <= mid implies precedes(
                    K::codes(#[trigger] all[i]),
                    K::codes(key@),
                ) by {
                    if i < mid {
                        lemma_precedes_transitive(K::codes(all[i]), K::codes(here), K::codes(key@));
                    }
                }
                low = mid + 1;
            },
            Position::After => {
                assert forall|i: int| mid <= i < all.len() implies precedes(
                    K::codes(key@),
                    K::codes(#[trigger] all[i]),
                ) by {
                    if i > mid {
                        lemma_precedes_transitive(K::codes(key@), K::codes(here), K::codes(all[i]));
                    }
                }
                high = mid;
            },
        }
    }
    proof {
        if all.contains(key@) {
            let i = choose|i: int| 0 <= i < all.len() && all[i] == key@;
            if i < low {
                lemma_precedes_irreflexive(K::codes(all[i]), K::codes(key@));
            } else {
                lemma_precedes_irreflexive(K::codes(key@), K::codes(all[i]));
            }
        }
    }
    Err(low)
}

/// A set of texts, kept in increasing order.
#[derive(Debug)]
pub struct TextSet {
    items: Vec<String>,
}

impl View for TextSet {
    type V = Set<Seq<char>>;

    closed spec fn view(&self) -> Set<Seq<char>> {
        views(self.items@).to_set()
    }
}

impl Clone for TextSet {
    fn clone(&self) -> (r: TextSet)
        ensures
            r@ == self@,
    {
        proof {
            use_type_invariant(self);
        }
        let items = clone_texts(&self.items);
        TextSet { items }
    }
}

/// A copy of a list of texts.
pub fn clone_texts(v: &Vec<String>) -> (r: Vec<String>)
    ensures
        views(r@) == views(v@),
{
    let mut out: Vec<String> = Vec::new();
    assert(views(out@) =~= views(v@).take(0));
    for i in 0..v.len()
        invariant
            views(out@) == views(v@).take(i as int),
    {
        push_view(&mut out, v[i].clone());
        assert(views(out@) =~= views(v@).take(i + 1));
    }
    assert(views(v@).take(v@.len() as int) =~= views(v@));
    out
}

/// `list` holds the members of `set` in increasing order.
pub open spec fn lists(list: Seq<Seq<char>>, set: Set<Seq<char>>) -> bool {
    increasing_texts(list) && list.to_set() == set
}

/// The members of a finite set of keys in increasing order.
pub open spec fn in_order<K: OrderedKey>(set: Set<K::V>) -> Seq<K::V> {
    choose|list: Seq<K::V>| #[trigger] increasing::<K>(list) && list.to_set() == set
}

/// The members of a finite set of texts in increasing order.
pub open spec fn listed(set: Set<Seq<char>>) -> Seq<Seq<char>> {
    in_order::<String>(set)
}

/// The one increasing list of the members of a set is the one that `in_order` names.
pub proof fn lemma_in_order<K: OrderedKey>(list: Seq<K::V>, set: Set<K::V>)
    requires
        increasing::<K>(list),
        list.to_set() == set,
    ensures
        in_order::<K>(set) == list,
{
    let other = in_order::<K>(set);
    assert(increasing::<K>(other) && other.to_set() == set);
    assert forall|k: K::V| list.contains(k) <==> other.contains(k) by {
        assert(list.contains(k) <==> list.to_set().contains(k));
        assert(other.contains(k) <==> other.to_set().contains(k));
    }
    lemma_increasing_unique::<K>(list, other);
}

/// Where `key` goes among `keys`.
proof fn lemma_insert_place<K: OrderedKey>(keys: Seq<K::V>, key: K::V) -> (at: int)
    requires
        increasing::<K>(keys),
        !keys.contains(key),
    ensures
        0 <= at <= keys.len(),
        forall|i: int| 0 <= i < at ==> precedes(K::codes(#[trigger] keys[i]), K::codes(key)),
        forall|i: int| at <= i < keys.len() ==> precedes(K::codes(key), K::codes(#[trigger] keys[i])),
    decreases keys.len(),
{
    if keys.len() == 0 {
        0
    } else {
        let before = keys.drop_last();
        let last = keys.last();
        assert(keys[keys.len() - 1] == last);
        lemma_total_from(K::codes(last), K::codes(key), 0);
        if K::codes(last) == K::codes(key) {
            K::lemma_codes_injective(last, key);
        }
        if precedes(K::codes(last), K::codes(key)) {
            assert forall|i: int| 0 <= i < keys.len() implies precedes(
                K::codes(#[trigger] keys[i]),
                K::codes(key),
            ) by {
                if i < keys.len() - 1 {
                    lemma_precedes_transitive(K::codes(keys[i]), K::codes(last), K::codes(key));
                }
            }
            keys.len() as int
        } else {
            assert(!before.contains(key)) by {
                if before.contains(key) {
                    let i = choose|i: int| 0 <= i < before.len() && before[i] == key;
                    assert(keys[i] == key);
                }
            }
            assert(increasing::<K>(before)) by {
                assert forall|i: int, j: int| 0 <= i < j < before.len() implies precedes(
                    K::codes(#[trigger] before[i]),
                    K::codes(#[trigger] before[j]),
                ) by {
                    assert(before[i] == keys[i] && before[j] == keys[j]);
                }
            }
            let at = lemma_insert_place::<K>(before, key);
            assert forall|i: int| 0 <= i < at implies precedes(
                K::codes(#[trigger] keys[i]),
                K::codes(key),
            ) by {
                assert(keys[i] == before[i]);
            }
            assert forall|i: int| at <= i < keys.len() implies precedes(
                K::codes(key),
                K::codes(#[trigger] keys[i]),
            ) by {
                if i < before.len() {
                    assert(keys[i] == before[i]);
                }
            }
            at
        }
    }
}

/// Every finite set of keys can be listed in increasing order.
pub proof fn lemma_in_order_exists<K: OrderedKey>(set: Set<K::V>)
    requires
        set.finite(),
    ensures
        increasing::<K>(in_order::<K>(set)),
        in_order::<K>(set).to_set() == set,
    decreases set.len(),
{
    if set.len() == 0 {
        let none = Seq::<K::V>::empty();
        assert(set =~= Set::empty());
        assert(none.to_set() =~= set);
        lemma_in_order::<K>(none, set);
    } else {
        let key = set.choose();
        let rest = set.remove(key);
        lemma_in_order_exists::<K>(rest);
        let list = in_order::<K>(rest);
        assert(!list.contains(key)) by {
            if list.contains(key) {
                assert(list.to_set().contains(key));
            }
        }
        let at = lemma_insert_place::<K>(list, key);
        lemma_increasing_insert::<K>(list, at, key);
        let all = list.insert(at, key);
        assert(all.to_set() =~= set) by {
            assert forall|k: K::V| all.contains(k) <==> set.contains(k) by {
                assert(list.to_set().contains(k) <==> list.contains(k));
                if all.contains(k) {
                    let i = choose|i: int| 0 <= i < all.len() && all[i] == k;
                    if i < at {
                        assert(list[i] == k);
                    } else if i > at {
                        assert(list[i - 1] == k);
                    }
                }
                if list.contains(k) {
                    let i = choose|i: int| 0 <= i < list.len() && list[i] == k;
                    if i < at {
                        assert(all[i] == k);
                    } else {
                        assert(all[i + 1] == k);
                    }
                }
                assert(all[at] == key);
            }
        }
        lemma_in_order::<K>(all, set);
    }
}

impl TextSet {
    #[verifier::type_invariant]
    closed spec fn wf(self) -> bool {
        increasing_texts(views(self.items@))
    }

    pub fn new() -> (r: TextSet)
        ensures
            r@ == Set::<Seq<char>>::empty(),
    {
        let items: Vec<String> = Vec::new();
        assert(views(items@).to_set() =~= Set::<Seq<char>>::empty());
        TextSet { items }
    }

    pub fn is_empty(&self) -> (r: bool)
        ensures
            r == (self@ == Set::<Seq<char>>::empty()),
    {
        proof {
            if self.items@.len() > 0 {
                assert(views(self.items@)[0] == self.items@[0]@);
                assert(self@.contains(self.items@[0]@));
            } else {
                assert(self@ =~= Set::<Seq<char>>::empty());
            }
        }
        self.items.len() == 0
    }

    /// The number of members.
    pub fn len(&self) -> (r: usize)
        ensures
            self@.finite(),
            r == self@.len(),
    {
        proof {
            use_type_invariant(self);
            let all = views(self.items@);
            assert(all.no_duplicates()) by {
                assert forall|i: int, j: int|
                    0 <= i < all.len() && 0 <= j < all.len() && i != j implies all[i] != all[j] by {
                    if all[i] == all[j] {
                        lemma_increasing_distinct::<String>(all, i, j);
                    }
                }
            }
            all.unique_seq_to_set();
        }
        self.items.len()
    }

    pub fn contains(&self, item: &str) -> (r: bool)
        ensures
            r == self@.contains(item@),
    {
        proof {
            use_type_invariant(self);
        }
        let key = item.to_string();
        match search(&self.items, &key) {
            Ok(i) => {
                assert(views(self.items@)[i as int] == item@);
                true
            },
            Err(_) => false,
        }
    }

    /// Adds `item`; gives whether it was not there before.
    pub fn insert(&mut self, item: String) -> (r: bool)
        ensures
            final(self)@ == old(self)@.insert(item@),
            r == !old(self)@.contains(item@),
    {
        proof {
            use_type_invariant(&*self);
        }
        let ghost before = views(self.items@);
        match search(&self.items, &item) {
            Ok(i) => {
                assert(before[i as int] == item@);
                assert(self@ =~= old(self)@.insert(item@));
                false
            },
            Err(at) => {
                let ghost text = item@;
                proof {
                    lemma_increasing_insert::<String>(before, at as int, text);
                }
                let mut taken = TextSet::new();
                std::mem::swap(self, &mut taken);
                let mut items = taken.items;
                items.insert(at, item);
                assert(views(items@) =~= before.insert(at as int, text));
                *self = TextSet { items };
                proof {
                    assert(views(self.items@) =~= before.insert(at as int, text));
                    let after = views(self.items@);
                    assert(after.to_set() =~= before.to_set().insert(text)) by {
                        assert forall|x: Seq<char>| after.contains(x) <==> before.contains(x) || x
                            == text by {
                            if after.contains(x) {
                                let i = choose|i: int| 0 <= i < after.len() && after[i] == x;
                                if i < at {
                                    assert(before[i] == x);
                                } else if i > at {
                                    assert(before[i - 1] == x);
                                }
                            }
                            if before.contains(x) {
                                let i = choose|i: int| 0 <= i < before.len() && before[i] == x;
                                if i < at {
                                    assert(after[i] == x);
                                } else {
                                    assert(after[i + 1] == x);
                                }
                            }
                            assert(after[at as int] == text);
                        }
                    }
                }
                true
            },
        }
    }

    /// Adds all of `more`.
    pub fn insert_all(&mut self, more: &TextSet)
        ensures
            final(self)@ == old(self)@.union(more@),
    {
        let ghost all = views(more.items@);
        assert(old(self)@.union(all.take(0).to_set()) =~= old(self)@);
        for i in 0..more.items.len()
            invariant
                all == views(more.items@),
                self@ == old(self)@.union(all.take(i as int).to_set()),
        {
            let item = more.items[i].clone();
            self.insert(item);
            proof {
                assert(all.take(i + 1) =~= all.take(i as int).push(all[i as int]));
                all.take(i as int).lemma_push_to_set_commute(all[i as int]);
                assert(self@ =~= old(self)@.union(all.take(i + 1).to_set()));
            }
        }
        assert(all.take(all.len() as int) =~= all);
    }

    /// The members in increasing order.
    pub fn to_list(&self) -> (r: Vec<String>)
        ensures
            lists(views(r@), self@),
            views(r@) == listed(self@),
    {
        proof {
            use_type_invariant(self);
            lemma_in_order::<String>(views(self.items@), self@);
        }
        clone_texts(&self.items)
    }
}

/// The map that sends each key to the value at its index.
pub open spec fn map_of<A, B>(keys: Seq<A>, values: Seq<B>) -> Map<A, B> {
    Map::new(|k: A| keys.contains(k), |k: A| values[keys.index_of(k)])
}

/// A map kept in increasing order of its keys.
#[derive(Debug)]
pub struct OrderedMap<K: OrderedKey, V: View> {
    keys: Vec<K>,
    values: Vec<V>,
}

impl<K: OrderedKey, V: View> View for OrderedMap<K, V> {
    type V = Map<K::V, V::V>;

    closed spec fn view(&self) -> Map<K::V, V::V> {
        map_of(views(self.keys@), views(self.values@))
    }
}

/// `keys` and `values` hold the content of `map` in increasing order of the keys.
pub open spec fn lists_map<K: OrderedKey, V>(keys: Seq<K::V>, values: Seq<V>, map: Map<K::V, V>) -> bool {
    &&& increasing::<K>(keys)
    &&& keys.len() == values.len()
    &&& keys.to_set() == map.dom()
    &&& forall|i: int| 0 <= i < keys.len() ==> #[trigger] values[i] == map[keys[i]]
}

proof fn lemma_index_of<K: OrderedKey>(keys: Seq<K::V>, i: int)
    requires
        increasing::<K>(keys),
        0 <= i < keys.len(),
    ensures
        keys.contains(keys[i]),
        keys.index_of(keys[i]) == i,
{
    let k = keys.index_of(keys[i]);
    assert(keys[k] == keys[i]);
    lemma_increasing_distinct::<K>(keys, k, i);
}

proof fn lemma_map_update<K: OrderedKey, V>(keys: Seq<K::V>, values: Seq<V>, i: int, value: V)
    requires
        increasing::<K>(keys),
        keys.len() == values.len(),
        0 <= i < keys.len(),
    ensures
        map_of(keys, values.update(i, value)) == map_of(keys, values).insert(keys[i], value),
{
    let a = map_of(keys, values.update(i, value));
    let b = map_of(keys, values).insert(keys[i], value);
    lemma_index_of::<K>(keys, i);
    assert(a =~= b) by {
        assert forall|k: K::V| #[trigger] keys.contains(k) implies a[k] == b[k] by {
            if k != keys[i] {
                assert(keys.index_of(k) != i);
            }
        }
    }
}

proof fn lemma_map_insert<K: OrderedKey, V>(keys: Seq<K::V>, values: Seq<V>, at: int, key: K::V, value: V)
    requires
        increasing::<K>(keys),
        keys.len() == values.len(),
        0 <= at <= keys.len(),
        increasing::<K>(keys.insert(at, key)),
    ensures
        map_of(keys.insert(at, key), values.insert(at, value)) == map_of(keys, values).insert(
            key,
            value,
        ),
{
    let ks = keys.insert(at, key);
    let vs = values.insert(at, value);
    let a = map_of(ks, vs);
    let b = map_of(keys, values).insert(key, value);
    assert(ks[at] == key);
    lemma_index_of::<K>(ks, at);
    assert forall|k: K::V| #[trigger] ks.contains(k) implies b.dom().contains(k) && a[k] == b[k] by {
        let i = ks.index_of(k);
        if i != at {
            let j = if i < at {
                i
            } else {
                i - 1
            };
            assert(keys[j] == k);
            lemma_index_of::<K>(keys, j);
            if k == key {
                lemma_increasing_distinct::<K>(ks, i, at);
            }
        }
    }
    assert forall|k: K::V| #[trigger] b.dom().contains(k) implies ks.contains(k) by {
        if keys.contains(k) {
            let j = keys.index_of(k);
            if j < at {
                assert(ks[j] == k);
            } else {
                assert(ks[j + 1] == k);
            }
        }
    }
    assert(a =~= b);
}

proof fn lemma_map_remove<K: OrderedKey, V>(keys: Seq<K::V>, values: Seq<V>, i: int)
    requires
        increasing::<K>(keys),
        keys.len() == values.len(),
        0 <= i < keys.len(),
    ensures
        increasing::<K>(keys.remove(i)),
        map_of(keys.remove(i), values.remove(i)) == map_of(keys, values).remove(keys[i]),
{
    let ks = keys.remove(i);
    let vs = values.remove(i);
    let a = map_of(ks, vs);
    let b = map_of(keys, values).remove(keys[i]);
    assert forall|x: int, y: int| 0 <= x < y < ks.len() implies precedes(
        K::codes(#[trigger] ks[x]),
        K::codes(#[trigger] ks[y]),
    ) by {
        let p = if x < i {
            x
        } else {
            x + 1
        };
        let q = if y < i {
            y
        } else {
            y + 1
        };
        assert(ks[x] == keys[p] && ks[y] == keys[q]);
    }
    assert forall|k: K::V| #[trigger] ks.contains(k) implies b.dom().contains(k) && a[k] == b[k] by {
        let x = ks.index_of(k);
        let p = if x < i {
            x
        } else {
            x + 1
        };
        assert(keys[p] == k);
        lemma_index_of::<K>(keys, p);
        if k == keys[i] {
            lemma_increasing_distinct::<K>(keys, p, i);
        }
    }
    assert forall|k: K::V| #[trigger] b.dom().contains(k) implies ks.contains(k) by {
        let p = keys.index_of(k);
        assert(keys[p] == k);
        if p < i {
            assert(ks[p] == k);
        } else {
            assert(ks[p - 1] == k);
        }
    }
    assert(a =~= b);
}

proof fn lemma_lists_map<K: OrderedKey, V>(keys: Seq<K::V>, values: Seq<V>)
    requires
        increasing::<K>(keys),
        keys.len() == values.len(),
    ensures
        lists_map::<K, V>(keys, values, map_of(keys, values)),
{
    assert(keys.to_set() =~= map_of(keys, values).dom());
    assert forall|i: int| 0 <= i < keys.len() implies #[trigger] values[i] == map_of(
        keys,
        values,
    )[keys[i]] by {
        lemma_index_of::<K>(keys, i);
    }
}

impl<K: OrderedKey, V: View> OrderedMap<K, V> {
    #[verifier::type_invariant]
    closed spec fn wf(self) -> bool {
        increasing::<K>(views(self.keys@)) && self.keys@.len() == self.values@.len()
    }

    pub fn new() -> (r: OrderedMap<K, V>)
        ensures
            r@ == Map::<K::V, V::V>::empty(),
    {
        let keys: Vec<K> = Vec::new();
        let values: Vec<V> = Vec::new();
        assert(map_of(views(keys@), views(values@)) =~= Map::<K::V, V::V>::empty());
        OrderedMap { keys, values }
    }

    /// The value of `key`.
    pub fn get(&self, key: &K) -> (r: Option<&V>)
        ensures
            match r {
                Some(v) => self@.dom().contains(key@) && v@ == self@[key@],
                None => !self@.dom().contains(key@),
            },
    {
        proof {
            use_type_invariant(self);
        }
        match search(&self.keys, key) {
            Ok(i) => {
                proof {
                    assert(views(self.keys@)[i as int] == key@);
                    lemma_index_of::<K>(views(self.keys@), i as int);
                    assert(views(self.values@)[i as int] == self.values@[i as int]@);
                }
                Some(&self.values[i])
            },
            Err(_) => None,
        }
    }

    /// Gives `key` the value `value`.
    pub fn insert(&mut self, key: K, value: V)
        ensures
            final(self)@ == old(self)@.insert(key@, value@),
    {
        proof {
            use_type_invariant(&*self);
        }
        let ghost ks = views(self.keys@);
        let ghost vs = views(self.values@);
        let ghost k = key@;
        let ghost v = value@;
        let place = search(&self.keys, &key);
        let mut taken: OrderedMap<K, V> = OrderedMap::new();
        std::mem::swap(self, &mut taken);
        let mut keys = taken.keys;
        let mut values = taken.values;
        match place {
            Ok(i) => {
                proof {
                    lemma_map_update::<K, V::V>(ks, vs, i as int, v);
                    assert(ks[i as int] == k);
                }
                values.set(i, value);
                assert(views(values@) =~= vs.update(i as int, v));
                assert(views(keys@) =~= ks);
            },
            Err(at) => {
                proof {
                    lemma_increasing_insert::<K>(ks, at as int, k);
                    lemma_map_insert::<K, V::V>(ks, vs, at as int, k, v);
                }
                keys.insert(at, key);
                values.insert(at, value);
                assert(views(keys@) =~= ks.insert(at as int, k));
                assert(views(values@) =~= vs.insert(at as int, v));
            },
        }
        *self = OrderedMap { keys, values };
    }

    /// Takes `key` out; gives whether it was there.
    pub fn remove(&mut self, key: &K) -> (r: bool)
        ensures
            final(self)@ == old(self)@.remove(key@),
            r == old(self)@.dom().contains(key@),
    {
        proof {
            use_type_invariant(&*self);
        }
        let ghost ks = views(self.keys@);
        let ghost vs = views(self.values@);
        match search(&self.keys, key) {
            Ok(i) => {
                proof {
                    assert(ks[i as int] == key@);
                    lemma_map_remove::<K, V::V>(ks, vs, i as int);
                }
                let mut taken: OrderedMap<K, V> = OrderedMap::new();
                std::mem::swap(self, &mut taken);
                let mut keys = taken.keys;
                let mut values = taken.values;
                keys.remove(i);
                values.remove(i);
                assert(views(keys@) =~= ks.remove(i as int));
                assert(views(values@) =~= vs.remove(i as int));
                *self = OrderedMap { keys, values };
                true
            },
            Err(_) => {
                assert(self@.remove(key@) =~= self@);
                false
            },
        }
    }

    pub fn is_empty(&self) -> (r: bool)
        ensures
            r == (self@ == Map::<K::V, V::V>::empty()),
    {
        proof {
            if self.keys@.len() > 0 {
                assert(views(self.keys@)[0] == self.keys@[0]@);
                assert(self@.dom().contains(self.keys@[0]@));
            } else {
                assert(self@ =~= Map::<K::V, V::V>::empty());
            }
        }
        self.keys.len() == 0
    }

    /// The number of keys.
    pub fn len(&self) -> (r: usize)
        ensures
            self@.dom().finite(),
            r == self@.dom().len(),
    {
        proof {
            use_type_invariant(self);
            let all = views(self.keys@);
            assert(all.no_duplicates()) by {
                assert forall|i: int, j: int|
                    0 <= i < all.len() && 0 <= j < all.len() && i != j implies all[i] != all[j] by {
                    if all[i] == all[j] {
                        lemma_increasing_distinct::<K>(all, i, j);
                    }
                }
            }
            all.unique_seq_to_set();
            lemma_lists_map::<K, V::V>(all, views(self.values@));
        }
        self.keys.len()
    }

    /// The keys in increasing order, and the value of each.
    pub fn into_lists(self) -> (r: (Vec<K>, Vec<V>))
        ensures
            lists_map::<K, V::V>(views(r.0@), views(r.1@), self@),
            views(r.0@) == in_order::<K>(self@.dom()),
    {
        proof {
            use_type_invariant(&self);
            lemma_lists_map::<K, V::V>(views(self.keys@), views(self.values@));
            lemma_in_order::<K>(views(self.keys@), self@.dom());
        }
        (self.keys, self.values)
    }

    /// The keys in increasing order, and the value of each.
    pub fn as_lists(&self) -> (r: (&Vec<K>, &Vec<V>))
        ensures
            lists_map::<K, V::V>(views(r.0@), views(r.1@), self@),
            views(r.0@) == in_order::<K>(self@.dom()),
    {
        proof {
            use_type_invariant(self);
            lemma_lists_map::<K, V::V>(views(self.keys@), views(self.values@));
            lemma_in_order::<K>(views(self.keys@), self@.dom());
        }
        (&self.keys, &self.values)
    }
}

impl<V: View> OrderedMap<String, V> {
    /// The set of the keys.
    pub fn key_set(&self) -> (r: TextSet)
        ensures
            r@ == self@.dom(),
    {
        proof {
            use_type_invariant(self);
            lemma_lists_map::<String, V::V>(views(self.keys@), views(self.values@));
        }
        TextSet { items: clone_texts(&self.keys) }
    }
}

/// Two texts, ordered by the first, then by the second.
#[derive(Debug)]
pub struct TextPair {
    pub first: String,
    pub second: String,
}

impl View for TextPair {
    type V = (Seq<char>, Seq<char>);

    open spec fn view(&self) -> (Seq<char>, Seq<char>) {
        (self.first@, self.second@)
    }
}

/// The codes of the first text, an end mark below all codes, those of the second.
pub open spec fn pair_codes(v: (Seq<char>, Seq<char>)) -> Seq<int> {
    char_codes(v.0).push(-1) + char_codes(v.1)
}

/// `a` comes before `b`: by the first text, then by the second.
pub open spec fn pair_before(a: (Seq<char>, Seq<char>), b: (Seq<char>, Seq<char>)) -> bool {
    text_before(a.0, b.0) || (a.0 == b.0 && text_before(a.1, b.1))
}

proof fn lemma_char_code(c: char)
    ensures
        c as int >= 0,
{
}

proof fn lemma_pair_before_codes(a: (Seq<char>, Seq<char>), b: (Seq<char>, Seq<char>))
    requires
        pair_before(a, b),
    ensures
        precedes(pair_codes(a), pair_codes(b)),
{
    let x = pair_codes(a);
    let y = pair_codes(b);
    if text_before(a.0, b.0) {
        let p = char_codes(a.0);
        let q = char_codes(b.0);
        let k = choose|k: int| diverges_at(p, q, k);
        assert(x.take(k) =~= p.take(k));
        assert(y.take(k) =~= q.take(k));
        assert(y[k] == q[k]);
        assert(q[k] == b.0[k] as int);
        lemma_char_code(b.0[k]);
        if k < p.len() {
            assert(x[k] == p[k]);
        } else {
            assert(x[k] == -1);
        }
        assert(diverges_at(x, y, k));
    } else {
        let p = char_codes(a.1);
        let q = char_codes(b.1);
        let k = choose|k: int| diverges_at(p, q, k);
        let n = a.0.len() + 1;
        assert forall|j: int| 0 <= j < n + k implies x[j] == y[j] by {
            if j >= n {
                assert(p.take(k)[j - n] == q.take(k)[j - n]);
            }
        }
        assert(x.take(n + k) =~= y.take(n + k));
        assert(diverges_at(x, y, n + k));
    }
}

/// The codes of pairs are ordered as the pairs.
pub proof fn lemma_pair_order(a: (Seq<char>, Seq<char>), b: (Seq<char>, Seq<char>))
    ensures
        precedes(pair_codes(a), pair_codes(b)) <==> pair_before(a, b),
        pair_codes(a) == pair_codes(b) <==> a == b,
{
    lemma_text_total(a.0, b.0);
    lemma_text_total(a.1, b.1);
    if pair_before(a, b) {
        lemma_pair_before_codes(a, b);
        lemma_precedes_irreflexive(pair_codes(a), pair_codes(b));
    } else if pair_before(b, a) {
        lemma_pair_before_codes(b, a);
        lemma_precedes_irreflexive(pair_codes(b), pair_codes(a));
    } else {
        assert(a == b);
        if precedes(pair_codes(a), pair_codes(b)) {
            lemma_precedes_irreflexive(pair_codes(a), pair_codes(b));
        }
    }
}

impl OrderedKey for TextPair {
    open spec fn codes(v: (Seq<char>, Seq<char>)) -> Seq<int> {
        pair_codes(v)
    }

    proof fn lemma_codes_injective(a: (Seq<char>, Seq<char>), b: (Seq<char>, Seq<char>)) {
        lemma_pair_order(a, b);
    }

    fn stands_to(&self, other: &Self) -> (r: Position) {
        proof {
            lemma_pair_order(self@, other@);
            lemma_pair_order(other@, self@);
            lemma_text_total(self.first@, other.first@);
            lemma_text_total(self.second@, other.second@);
        }
        match self.first.stands_to(&other.first) {
            Position::Same => self.second.stands_to(&other.second),
            other_position => other_position,
        }
    }
}

/// Key `i` comes before key `j`: by the text, then as found.
pub open spec fn key_before(keys: Seq<Seq<char>>, i: int, j: int) -> bool {
    text_before(keys[i], keys[j]) || (keys[i] == keys[j] && i < j)
}

/// `order` holds the index of every key once, in increasing order of the keys;
/// equal keys stay as found.
pub open spec fn is_stable_order(keys: Seq<Seq<char>>, order: Seq<usize>) -> bool {
    &&& forall|k: int| 0 <= k < order.len() ==> (#[trigger] order[k]) < keys.len()
    &&& forall|i: int| 0 <= i < keys.len() ==> #[trigger] order.contains(i as usize)
    &&& forall|k: int, l: int|
        0 <= k < l < order.len() ==> key_before(
            keys,
            #[trigger] order[k] as int,
            #[trigger] order[l] as int,
        )
}

proof fn lemma_key_before_total(keys: Seq<Seq<char>>, i: int, j: int)
    requires
        i != j,
        !key_before(keys, i, j),
    ensures
        key_before(keys, j, i),
{
    lemma_text_total(keys[i], keys[j]);
}

proof fn lemma_key_before_transitive(keys: Seq<Seq<char>>, i: int, j: int, k: int)
    requires
        key_before(keys, i, j),
        key_before(keys, j, k),
    ensures
        key_before(keys, i, k),
{
    if text_before(keys[i], keys[j]) && text_before(keys[j], keys[k]) {
        lemma_precedes_transitive(
            char_codes(keys[i]),
            char_codes(keys[j]),
            char_codes(keys[k]),
        );
    }
}

/// The indices of `keys` in increasing order of the keys.
pub fn stable_order(keys: &Vec<String>) -> (r: Vec<usize>)
    ensures
        is_stable_order(views(keys@), r@),
{
    let ghost all = views(keys@);
    let mut order: Vec<usize> = Vec::new();
    for i in 0..keys.len()
        invariant
            all == views(keys@),
            forall|k: int| 0 <= k < order@.len() ==> (#[trigger] order@[k]) < i,
            forall|n: int| 0 <= n < i ==> #[trigger] order@.contains(n as usize),
            forall|k: int, l: int|
                0 <= k < l < order@.len() ==> key_before(
                    all,
                    #[trigger] order@[k] as int,
                    #[trigger] order@[l] as int,
                ),
    {
        assert(all[i as int] == keys@[i as int]@);
        let mut at: usize = order.len();
        let mut found = false;
        while at > 0 && !found
            invariant
                all == views(keys@),
                i < keys@.len(),
                at <= order@.len(),
                all[i as int] == keys@[i as int]@,
                found ==> at > 0 && key_before(all, order@[at - 1] as int, i as int),
                forall|k: int| 0 <= k < order@.len() ==> (#[trigger] order@[k]) < i,
                forall|k: int|
                    at <= k < order@.len() ==> key_before(all, i as int, #[trigger] order@[k] as int),
            decreases
                    at,
                    (if found {
                        0int
                    } else {
                        1int
                    }),
        {
            let other: usize = order[at - 1];
            assert(all[other as int] == keys@[other as int]@);
            proof {
                lemma_text_total(all[other as int], all[i as int]);
            }
            if keys[other].stands_to(&keys[i]) != Position::After {
                assert(key_before(all, other as int, i as int));
                found = true;
            } else {
                proof {
                    lemma_key_before_total(all, other as int, i as int);
                }
                at = at - 1;
            }
        }
        let ghost before = order@;
        order.insert(at, i);
        proof {
            let after = order@;
            assert(after =~= before.insert(at as int, i));
            assert forall|k: int| 0 <= k < at implies key_before(
                all,
                #[trigger] before[k] as int,
                i as int,
            ) by {
                if k < at - 1 {
                    lemma_key_before_transitive(
                        all,
                        before[k] as int,
                        before[at - 1] as int,
                        i as int,
                    );
                }
            }
            assert forall|k: int, l: int| 0 <= k < l < after.len() implies key_before(
                all,
                #[trigger] after[k] as int,
                #[trigger] after[l] as int,
            ) by {
                let a = if k < at {
                    k
                } else {
                    k - 1
                };
                let b = if l < at {
                    l
                } else {
                    l - 1
                };
                if k != at {
                    assert(after[k] == before[a]);
                }
                if l != at {
                    assert(after[l] == before[b]);
                }
            }
            assert forall|n: int| 0 <= n < i + 1 implies #[trigger] after.contains(n as usize) by {
                if n < i {
                    assert(before.contains(n as usize));
                    let k = before.index_of(n as usize);
                    if k < at {
                        assert(after[k] == n as usize);
                    } else {
                        assert(after[k + 1] == n as usize);
                    }
                } else {
                    assert(after[at as int] == i);
                }
            }
        }
    }
    order
}

} // verus!
