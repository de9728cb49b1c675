use vstd::prelude::*;

verus! {

/// One scalar or composite datum of a log record.
///
/// Variant selection depends on the static type of the source value: any
/// unsigned integer becomes `Int`, any signed integer becomes `SignedInt`,
/// whatever its runtime magnitude.  A 64-bit IEEE-754 double is carried as
/// its bit pattern, since this library reads nothing of it but the bits.
/// `List` and `Dict` own their children, so a value is always a tree.
#[derive(Debug)]
pub enum DataValue {
    Bool(bool),
    Int(u64),
    SignedInt(i64),
    Float(u64),
    String(String),
    List(Vec<DataValue>),
    Dict(Vec<(String, DataValue)>),
}

/// Mathematical shape of a `DataValue`.  Dictionaries become maps, so
/// equality of models is structural and independent of entry order at
/// every nesting depth.
pub enum ValModel {
    Bool(bool),
    Int(u64),
    SignedInt(i64),
    Float(u64),
    Str(Seq<char>),
    List(Seq<ValModel>),
    Dict(Map<Seq<char>, ValModel>),
}

/// Model of a value: scalars keep their payload, lists model their
/// elements in order, and a dictionary's entries collapse into a map
/// where the last entry for a key wins.
pub open spec fn val_model(v: DataValue) -> ValModel
    decreases v,
{
    match v {
        DataValue::Bool(b) => ValModel::Bool(b),
        DataValue::Int(n) => ValModel::Int(n),
        DataValue::SignedInt(n) => ValModel::SignedInt(n),
        DataValue::Float(bits) => ValModel::Float(bits),
        DataValue::String(s) => ValModel::Str(s@),
        DataValue::List(l) => ValModel::List(seq_model(l@)),
        DataValue::Dict(d) => ValModel::Dict(pairs_model(d@)),
    }
}

/// Models of a sequence of values, element by element.
pub open spec fn seq_model(s: Seq<DataValue>) -> Seq<ValModel>
    decreases s,
{
    if s.len() == 0 {
        Seq::empty()
    } else {
        seq_model(s.drop_last()).push(val_model(s.last()))
    }
}

/// Map built from (key, value) entries in order; a later entry for the
/// same key overwrites an earlier one.
pub open spec fn pairs_model(s: Seq<(String, DataValue)>) -> Map<Seq<char>, ValModel>
    decreases s,
{
    if s.len() == 0 {
        Map::empty()
    } else {
        pairs_model(s.drop_last()).insert(s.last().0@, val_model(s.last().1))
    }
}

impl View for DataValue {
    type V = ValModel;

    open spec fn view(&self) -> ValModel {
        val_model(*self)
    }
}

/// Whether some entry of `s` carries key `k`.
pub open spec fn has_key(s: Seq<(String, DataValue)>, k: Seq<char>) -> bool {
    exists|i: int| 0 <= i < s.len() && s[i].0@ == k
}

/// Whether no entry after position `i` repeats the key at position `i`.
pub open spec fn is_last_occurrence(s: Seq<(String, DataValue)>, i: int) -> bool {
    forall|j: int| i < j < s.len() ==> s[j].0@ != s[i].0@
}

/// No two entries of `s` carry the same key.
pub open spec fn keys_unique(s: Seq<(String, DataValue)>) -> bool {
    forall|i: int, j: int| 0 <= i < j < s.len() ==> s[i].0@ != s[j].0@
}

proof fn lemma_seq_model_props(s: Seq<DataValue>)
    ensures
        seq_model(s).len() == s.len(),
        forall|i: int| 0 <= i < s.len() ==> seq_model(s)[i] == val_model(s[i]),
    decreases s.len(),
{
    if s.len() > 0 {
        lemma_seq_model_props(s.drop_last());
    }
}

/// The entries-to-map model has exactly the keys that occur in the entry
/// list, and the key at a position that no later entry repeats is mapped
/// to that position's value: the last write wins.
pub proof fn lemma_pairs_model_props(s: Seq<(String, DataValue)>)
    ensures
        forall|k: Seq<char>| #[trigger] pairs_model(s).dom().contains(k) <==> has_key(s, k),
        forall|i: int|
            0 <= i < s.len() && is_last_occurrence(s, i) ==> #[trigger] pairs_model(s)[s[i].0@]
                == val_model(s[i].1),
    decreases s.len(),
{
    if s.len() > 0 {
        let s0 = s.drop_last();
        lemma_pairs_model_props(s0);
        assert forall|k: Seq<char>| #[trigger] pairs_model(s).dom().contains(k) implies has_key(
            s,
            k,
        ) by {
            if k == s.last().0@ {
                assert(s[s.len() - 1].0@ == k);
            } else {
                let i = choose|i: int| 0 <= i < s0.len() && s0[i].0@ == k;
                assert(s[i].0@ == k);
            }
        }
        assert forall|k: Seq<char>| has_key(s, k) implies pairs_model(s).dom().contains(k) by {
            let i = choose|i: int| 0 <= i < s.len() && s[i].0@ == k;
            if i < s.len() - 1 {
                assert(s0[i].0@ == k);
                assert(has_key(s0, k));
            }
        }
        assert forall|i: int|
            0 <= i < s.len() && is_last_occurrence(s, i) implies #[trigger] pairs_model(
            s,
        )[s[i].0@] == val_model(s[i].1) by {
            if i < s.len() - 1 {
                assert(s[s.len() - 1].0@ != s[i].0@);
                assert(s0[i] == s[i]);
                assert(is_last_occurrence(s0, i));
            }
        }
    }
}

/// All dictionaries in the tree, at every depth, carry pairwise distinct
/// keys; the construction paths of this library establish this.
pub open spec fn wf_val(v: DataValue) -> bool
    decreases v,
{
    match v {
        DataValue::List(l) => wf_seq(l@),
        DataValue::Dict(d) => keys_unique(d@) && wf_pairs(d@),
        _ => true,
    }
}

pub open spec fn wf_seq(s: Seq<DataValue>) -> bool
    decreases s,
{
    s.len() == 0 || (wf_seq(s.drop_last()) && wf_val(s.last()))
}

pub open spec fn wf_pairs(s: Seq<(String, DataValue)>) -> bool
    decreases s,
{
    s.len() == 0 || (wf_pairs(s.drop_last()) && wf_val(s.last().1))
}

impl core::convert::From<bool> for DataValue {
    fn from(v: bool) -> Self {
        DataValue::Bool(v)
    }
}

impl vstd::std_specs::convert::FromSpecImpl<bool> for DataValue {
    open spec fn obeys_from_spec() -> bool {
        true
    }

    open spec fn from_spec(v: bool) -> Self {
        DataValue::Bool(v)
    }
}

impl core::convert::From<u64> for DataValue {
    fn from(v: u64) -> Self {
        DataValue::Int(v)
    }
}

impl vstd::std_specs::convert::FromSpecImpl<u64> for DataValue {
    open spec fn obeys_from_spec() -> bool {
        true
    }

    open spec fn from_spec(v: u64) -> Self {
        DataValue::Int(v)
    }
}

impl core::convert::From<u32> for DataValue {
    fn from(v: u32) -> Self {
        DataValue::Int(v as u64)
    }
}

impl vstd::std_specs::convert::FromSpecImpl<u32> for DataValue {
    open spec fn obeys_from_spec() -> bool {
        true
    }

    open spec fn from_spec(v: u32) -> Self {
        DataValue::Int(v as u64)
    }
}

impl core::convert::From<u16> for DataValue {
    fn from(v: u16) -> Self {
        DataValue::Int(v as u64)
    }
}

impl vstd::std_specs::convert::FromSpecImpl<u16> for DataValue {
    open spec fn obeys_from_spec() -> bool {
        true
    }

    open spec fn from_spec(v: u16) -> Self {
        DataValue::Int(v as u64)
    }
}

impl core::convert::From<u8> for DataValue {
    fn from(v: u8) -> Self {
        DataValue::Int(v as u64)
    }
}

impl vstd::std_specs::convert::FromSpecImpl<u8> for DataValue {
    open spec fn obeys_from_spec() -> bool {
        true
    }

    open spec fn from_spec(v: u8) -> Self {
        DataValue::Int(v as u64)
    }
}

impl core::convert::From<usize> for DataValue {
    fn from(v: usize) -> Self {
        DataValue::Int(v as u64)
    }
}

impl vstd::std_specs::convert::FromSpecImpl<usize> for DataValue {
    open spec fn obeys_from_spec() -> bool {
        true
    }

    open spec fn from_spec(v: usize) -> Self {
        DataValue::Int(v as u64)
    }
}

impl core::convert::From<i64> for DataValue {
    fn from(v: i64) -> Self {
        DataValue::SignedInt(v)
    }
}

impl vstd::std_specs::convert::FromSpecImpl<i64> for DataValue {
    open spec fn obeys_from_spec() -> bool {
        true
    }

    open spec fn from_spec(v: i64) -> Self {
        DataValue::SignedInt(v)
    }
}

impl core::convert::From<i32> for DataValue {
    fn from(v: i32) -> Self {
        DataValue::SignedInt(v as i64)
    }
}

impl vstd::std_specs::convert::FromSpecImpl<i32> for DataValue {
    open spec fn obeys_from_spec() -> bool {
        true
    }

    open spec fn from_spec(v: i32) -> Self {
        DataValue::SignedInt(v as i64)
    }
}

impl core::convert::From<i16> for DataValue {
    fn from(v: i16) -> Self {
        DataValue::SignedInt(v as i64)
    }
}

impl vstd::std_specs::convert::FromSpecImpl<i16> for DataValue {
    open spec fn obeys_from_spec() -> bool {
        true
    }

    open spec fn from_spec(v: i16) -> Self {
        DataValue::SignedInt(v as i64)
    }
}

impl core::convert::From<i8> for DataValue {
    fn from(v: i8) -> Self {
        DataValue::SignedInt(v as i64)
    }
}

impl vstd::std_specs::convert::FromSpecImpl<i8> for DataValue {
    open spec fn obeys_from_spec() -> bool {
        true
    }

    open spec fn from_spec(v: i8) -> Self {
        DataValue::SignedInt(v as i64)
    }
}

impl core::convert::From<isize> for DataValue {
    fn from(v: isize) -> Self {
        DataValue::SignedInt(v as i64)
    }
}

impl vstd::std_specs::convert::FromSpecImpl<isize> for DataValue {
    open spec fn obeys_from_spec() -> bool {
        true
    }

    open spec fn from_spec(v: isize) -> Self {
        DataValue::SignedInt(v as i64)
    }
}

impl core::convert::From<String> for DataValue {
    fn from(v: String) -> Self {
        DataValue::String(v)
    }
}

impl vstd::std_specs::convert::FromSpecImpl<String> for DataValue {
    open spec fn obeys_from_spec() -> bool {
        true
    }

    open spec fn from_spec(v: String) -> Self {
        DataValue::String(v)
    }
}

impl core::convert::From<Vec<DataValue>> for DataValue {
    fn from(v: Vec<DataValue>) -> Self {
        DataValue::List(v)
    }
}

impl vstd::std_specs::convert::FromSpecImpl<Vec<DataValue>> for DataValue {
    open spec fn obeys_from_spec() -> bool {
        true
    }

    open spec fn from_spec(v: Vec<DataValue>) -> Self {
        DataValue::List(v)
    }
}

impl DataValue {
    /// Borrowed text is copied into an owned `String` variant.
    pub fn from_text(v: &str) -> (r: DataValue)
        ensures
            r@ == ValModel::Str(v@),
    {
        DataValue::String(v.to_owned())
    }

    /// Builds a dictionary value from (key, value) entries.  A later entry
    /// for a repeated key overwrites the earlier one; this is intended
    /// policy, not an error.
    pub fn dict_from_pairs(pairs: Vec<(String, DataValue)>) -> (r: DataValue)
        ensures
            r@ == ValModel::Dict(pairs_model(pairs@)),
            wf_pairs(pairs@) ==> wf_val(r),
    {
        let data = dedup_last_wins(pairs);
        DataValue::Dict(data)
    }
}

impl DataValue {
    /// Deep structural equality: true exactly when the two values have the
    /// same model, so dictionary entry order is irrelevant at every depth
    /// while list order, variants and contents are compared exactly.
    pub fn deep_eq(&self, other: &DataValue) -> (r: bool)
        ensures
            r == (self@ == other@),
        decreases self,
    {
        match (self, other) {
            (DataValue::Bool(a), DataValue::Bool(b)) => *a == *b,
            (DataValue::Int(a), DataValue::Int(b)) => *a == *b,
            (DataValue::SignedInt(a), DataValue::SignedInt(b)) => *a == *b,
            (DataValue::Float(a), DataValue::Float(b)) => *a == *b,
            (DataValue::String(a), DataValue::String(b)) => *a == *b,
            (DataValue::List(a), DataValue::List(b)) => list_eq(a, b),
            (DataValue::Dict(a), DataValue::Dict(b)) => dict_eq(a, b),
            _ => false,
        }
    }
}

fn list_eq(a: &Vec<DataValue>, b: &Vec<DataValue>) -> (r: bool)
    ensures
        r == (seq_model(a@) == seq_model(b@)),
    decreases a,
{
    proof {
        lemma_seq_model_props(a@);
        lemma_seq_model_props(b@);
    }
    if a.len() != b.len() {
        proof {
            assert(seq_model(a@).len() != seq_model(b@).len());
        }
        return false;
    }
    let mut i: usize = 0;
    while i < a.len()
        invariant
            0 <= i <= a@.len(),
            a@.len() == b@.len(),
            seq_model(a@).len() == a@.len(),
            seq_model(b@).len() == b@.len(),
            forall|j: int| 0 <= j < a@.len() ==> #[trigger] seq_model(a@)[j] == val_model(a@[j]),
            forall|j: int| 0 <= j < b@.len() ==> #[trigger] seq_model(b@)[j] == val_model(b@[j]),
            forall|j: int| 0 <= j < i ==> val_model(a@[j]) == val_model(b@[j]),
        decreases a@.len() - i,
    {
        if !a[i].deep_eq(&b[i]) {
            proof {
                assert(seq_model(a@)[i as int] != seq_model(b@)[i as int]);
            }
            return false;
        }
        i = i + 1;
    }
    proof {
        assert(seq_model(a@) =~= seq_model(b@));
    }
    true
}

/// Position of the entry that decides key `*k` in `x`: the last one with
/// that key, or `None` when the key does not occur at all.
fn last_index_of(x: &Vec<(String, DataValue)>, k: &String) -> (r: Option<usize>)
    ensures
        match r {
            Some(j) => j < x@.len() && x@[j as int].0@ == k@ && is_last_occurrence(x@, j as int),
            None => !has_key(x@, k@),
        },
{
    let mut i: usize = x.len();
    while i > 0
        invariant
            0 <= i <= x@.len(),
            forall|j: int| i <= j < x@.len() ==> x@[j].0@ != k@,
        decreases i,
    {
        i = i - 1;
        if x[i].0 == *k {
            return Some(i);
        }
    }
    None
}

#[verifier::loop_isolation(false)]
#[verifier::rlimit(50)]
pub(crate) fn dict_eq(a: &Vec<(String, DataValue)>, b: &Vec<(String, DataValue)>) -> (r: bool)
    ensures
        r == (pairs_model(a@) == pairs_model(b@)),
    decreases a,
{
    proof {
        lemma_pairs_model_props(a@);
        lemma_pairs_model_props(b@);
    }
    // every key of `b` must occur in `a`
    let mut i: usize = 0;
    while i < b.len()
        invariant
            0 <= i <= b@.len(),
            forall|j: int| 0 <= j < i ==> has_key(a@, #[trigger] b@[j].0@),
        decreases b@.len() - i,
    {
        if !contains_key_entry(a, &b[i].0) {
            proof {
                assert(has_key(b@, b@[i as int].0@));
                assert(pairs_model(b@).dom().contains(b@[i as int].0@));
                assert(!pairs_model(a@).dom().contains(b@[i as int].0@));
            }
            return false;
        }
        i = i + 1;
    }
    // every key of `a` must be mapped by `b` to an equal value
    let mut i: usize = 0;
    while i < a.len()
        invariant
            0 <= i <= a@.len(),
            forall|j: int| 0 <= j < i ==> has_key(b@, #[trigger] a@[j].0@),
            forall|j: int|
                0 <= j < i ==> pairs_model(a@)[#[trigger] a@[j].0@] == pairs_model(b@)[a@[j].0@],
        decreases a@.len() - i,
    {
        proof {
            assert(has_key(a@, a@[i as int].0@));
        }
        let ja = match last_index_of(a, &a[i].0) {
            Some(j) => j,
            None => {
                proof {
                    assert(false);
                }
                0
            },
        };
        match last_index_of(b, &a[i].0) {
            None => {
                proof {
                    assert(pairs_model(a@).dom().contains(a@[i as int].0@));
                    assert(!pairs_model(b@).dom().contains(a@[i as int].0@));
                }
                return false;
            },
            Some(jb) => {
                if !a[ja].1.deep_eq(&b[jb].1) {
                    proof {
                        assert(pairs_model(a@)[a@[ja as int].0@] == val_model(a@[ja as int].1));
                        assert(pairs_model(b@)[b@[jb as int].0@] == val_model(b@[jb as int].1));
                        assert(pairs_model(a@)[a@[i as int].0@] != pairs_model(b@)[a@[
                            i as int].0@]);
                    }
                    return false;
                }
                proof {
                    assert(pairs_model(a@)[a@[ja as int].0@] == val_model(a@[ja as int].1));
                    assert(pairs_model(b@)[b@[jb as int].0@] == val_model(b@[jb as int].1));
                    assert(pairs_model(a@)[a@[i as int].0@] == pairs_model(b@)[a@[i as int].0@]);
                }
            },
        }
        i = i + 1;
    }
    proof {
        assert forall|k: Seq<char>| pairs_model(a@).dom().contains(k) implies pairs_model(
            b@,
        ).dom().contains(k) by {
            let j = choose|j: int| 0 <= j < a@.len() && a@[j].0@ == k;
            assert(has_key(b@, a@[j].0@));
        }
        assert forall|k: Seq<char>| pairs_model(b@).dom().contains(k) implies pairs_model(
            a@,
        ).dom().contains(k) by {
            let j = choose|j: int| 0 <= j < b@.len() && b@[j].0@ == k;
            assert(has_key(a@, b@[j].0@));
        }
        assert forall|k: Seq<char>|
            pairs_model(a@).dom().contains(k) implies #[trigger] pairs_model(a@)[k]
            == pairs_model(b@)[k] by {
            let j = choose|j: int| 0 <= j < a@.len() && a@[j].0@ == k;
        }
        assert(pairs_model(a@) =~= pairs_model(b@));
    }
    true
}

impl core::cmp::PartialEq for DataValue {
    fn eq(&self, other: &DataValue) -> (r: bool) {
        self.deep_eq(other)
    }
}

impl vstd::std_specs::cmp::PartialEqSpecImpl for DataValue {
    open spec fn obeys_eq_spec() -> bool {
        true
    }

    open spec fn eq_spec(&self, other: &DataValue) -> bool {
        self@ == other@
    }
}

/// Whether `data` holds an entry whose key equals `*k`.
pub(crate) fn contains_key_entry(data: &Vec<(String, DataValue)>, k: &String) -> (r: bool)
    ensures
        r == has_key(data@, k@),
{
    let mut i: usize = 0;
    while i < data.len()
        invariant
            0 <= i <= data@.len(),
            forall|j: int| 0 <= j < i ==> data@[j].0@ != k@,
        decreases data@.len() - i,
    {
        if data[i].0 == *k {
            proof {
                assert(data@[i as int].0@ == k@);
                assert(has_key(data@, k@));
            }
            return true;
        }
        i = i + 1;
    }
    false
}

proof fn lemma_wf_pairs_index(s: Seq<(String, DataValue)>)
    ensures
        wf_pairs(s) ==> forall|i: int| 0 <= i < s.len() ==> wf_val(#[trigger] s[i].1),
    decreases s.len(),
{
    if s.len() > 0 {
        lemma_wf_pairs_index(s.drop_last());
        if wf_pairs(s) {
            assert forall|i: int| 0 <= i < s.len() implies wf_val(#[trigger] s[i].1) by {
                if i < s.len() - 1 {
                    assert(s.drop_last()[i] == s[i]);
                    assert(wf_val(s.drop_last()[i].1));
                } else {
                    assert(s[i] == s.last());
                }
            }
        }
    }
}

/// Keeps, for each key, the entry whose value the whole list maps that key
/// to: the last one.  The resulting list carries pairwise distinct keys and
/// the same entries-to-map model as the input.
pub(crate) fn dedup_last_wins(pairs: Vec<(String, DataValue)>) -> (r: Vec<(String, DataValue)>)
    ensures
        pairs_model(r@) == pairs_model(pairs@),
        keys_unique(r@),
        wf_pairs(pairs@) ==> wf_pairs(r@),
{
    let ghost orig = pairs@;
    let mut rest = pairs;
    let mut data: Vec<(String, DataValue)> = Vec::new();
    proof {
        assert(rest@ =~= orig.take(rest@.len() as int));
        assert(pairs_model(rest@).union_prefer_right(pairs_model(data@)) =~= pairs_model(orig));
    }
    while rest.len() > 0
        invariant
            rest@.len() <= orig.len(),
            rest@ == orig.take(rest@.len() as int),
            pairs_model(orig) == pairs_model(rest@).union_prefer_right(pairs_model(data@)),
            keys_unique(data@),
            wf_pairs(orig) ==> wf_pairs(data@),
        decreases rest@.len(),
    {
        let ghost prev = rest@;
        let ghost prev_data = data@;
        let p = rest.pop().unwrap();
        proof {
            assert(rest@ == prev.drop_last());
            assert(rest@ =~= orig.take(rest@.len() as int));
            lemma_wf_pairs_index(orig);
            if wf_pairs(orig) {
                assert(prev.last() == orig.take(prev.len() as int)[prev.len() - 1]);
                assert(orig[prev.len() - 1] == prev.last());
                assert(wf_val(p.1));
            }
        }
        if contains_key_entry(&data, &p.0) {
            proof {
                lemma_pairs_model_props(data@);
                assert(pairs_model(data@).dom().contains(p.0@));
                assert(pairs_model(prev) == pairs_model(rest@).insert(p.0@, val_model(p.1)));
                assert(pairs_model(rest@).insert(p.0@, val_model(p.1)).union_prefer_right(
                    pairs_model(data@),
                ) =~= pairs_model(rest@).union_prefer_right(pairs_model(data@)));
            }
        } else {
            proof {
                lemma_pairs_model_props(data@);
                assert(!pairs_model(data@).dom().contains(p.0@));
            }
            data.push(p);
            proof {
                assert(data@ == prev_data.push(p));
                assert(data@.drop_last() =~= prev_data);
                assert(data@.last() == p);
                assert(pairs_model(data@) == pairs_model(data@.drop_last()).insert(
                    data@.last().0@,
                    val_model(data@.last().1),
                ));
                assert(pairs_model(data@) == pairs_model(prev_data).insert(
                    p.0@,
                    val_model(p.1),
                ));
                assert(pairs_model(prev) == pairs_model(rest@).insert(p.0@, val_model(p.1)));
                assert(pairs_model(rest@).insert(p.0@, val_model(p.1)).union_prefer_right(
                    pairs_model(prev_data),
                ) =~= pairs_model(rest@).union_prefer_right(pairs_model(data@)));
                assert forall|i: int, j: int| 0 <= i < j < data@.len() implies data@[i].0@
                    != data@[j].0@ by {
                    if j == data@.len() - 1 {
                        assert(!has_key(prev_data, p.0@));
                        assert(data@[i] == prev_data[i]);
                    }
                }
                if wf_pairs(orig) {
                    assert(wf_pairs(data@));
                }
            }
        }
    }
    proof {
        assert(rest@ =~= Seq::<(String, DataValue)>::empty());
        assert(pairs_model(rest@) =~= Map::<Seq<char>, ValModel>::empty());
        assert(pairs_model(rest@).union_prefer_right(pairs_model(data@)) =~= pairs_model(data@));
    }
    data
}

} // verus!
