use vstd::prelude::*;

use crate::rows::rows_view;

verus! {

/// The decimal digits of `n`, most significant first, as ASCII bytes.
pub open spec fn decimal(n: nat) -> Seq<u8>
    decreases n,
{
    if n < 10 {
        seq![(48 + n) as u8]
    } else {
        decimal(n / 10).push((48 + n % 10) as u8)
    }
}

/// The name that the traversal gives to the field at position `idx` of a
/// tuple struct: `_field` followed by the position in decimal.
pub open spec fn positional_name(idx: nat) -> Seq<u8> {
    seq![95u8, 102u8, 105u8, 101u8, 108u8, 100u8] + decimal(idx)
}

/// A struct field visited as `name` at position `idx` is anonymous when its
/// name is the positional placeholder; a struct field that is really named
/// that way cannot be told apart from a tuple position.
pub open spec fn is_anonymous(name: Seq<u8>, idx: nat) -> bool {
    name == positional_name(idx)
}

/// The names that a sequence of struct-field visits contributes, in visiting
/// order: every visit whose name is not the positional placeholder.
pub open spec fn named_fields(visits: Seq<(Seq<u8>, nat)>) -> Seq<Seq<u8>>
    decreases visits.len(),
{
    if visits.len() == 0 {
        Seq::empty()
    } else {
        let last = visits.last();
        let before = named_fields(visits.drop_last());
        if is_anonymous(last.0, last.1) {
            before
        } else {
            before.push(last.0)
        }
    }
}

fn decimal_digits(n: usize) -> (r: Vec<u8>)
    ensures
        r@ == decimal(n as nat),
    decreases n,
{
    if n < 10 {
        let d: u8 = (48 + n) as u8;
        vec![d]
    } else {
        let mut v = decimal_digits(n / 10);
        let d: u8 = (48 + n % 10) as u8;
        v.push(d);
        v
    }
}

/// Whether `name` is the placeholder that tuple structs give their field at
/// position `idx`.
pub fn is_positional_name(name: &Vec<u8>, idx: usize) -> (r: bool)
    ensures
        r == is_anonymous(name@, idx as nat),
{
    let digits = decimal_digits(idx);
    let prefix: [u8; 6] = [95u8, 102u8, 105u8, 101u8, 108u8, 100u8];
    let ghost expected = positional_name(idx as nat);
    if name.len() < 6 || name.len() - 6 != digits.len() {
        proof {
            assert(expected.len() == 6 + digits@.len());
        }
        return false;
    }
    let mut i: usize = 0;
    while i < name.len()
        invariant
            name.len() == 6 + digits.len(),
            expected == positional_name(idx as nat),
            expected == seq![95u8, 102u8, 105u8, 101u8, 108u8, 100u8] + digits@,
            prefix@ == seq![95u8, 102u8, 105u8, 101u8, 108u8, 100u8],
            i <= name.len(),
            forall|k: int| 0 <= k < i ==> name@[k] == expected[k],
        decreases name.len() - i,
    {
        let want = if i < 6 {
            prefix[i]
        } else {
            digits[i - 6]
        };
        assert(want == expected[i as int]);
        if name[i] != want {
            assert(name@[i as int] != expected[i as int]);
            return false;
        }
        i += 1;
    }
    assert(name@ =~= expected);
    true
}

/// Collects the field names of a record type while the type decodes itself
/// from nothing: every struct field that the traversal reads is recorded, in
/// reading order, unless its name is a tuple-struct placeholder.
pub struct FieldNamesDecoder {
    field_names: Vec<Vec<u8>>,
}

impl View for FieldNamesDecoder {
    type V = Seq<Seq<u8>>;

    closed spec fn view(&self) -> Seq<Seq<u8>> {
        rows_view(self.field_names@)
    }
}

impl FieldNamesDecoder {
    /// A collector that has seen no field yet.
    pub fn new() -> (r: FieldNamesDecoder)
        ensures
            r@ == Seq::<Seq<u8>>::empty(),
    {
        let r = FieldNamesDecoder { field_names: Vec::new() };
        assert(r@ =~= Seq::<Seq<u8>>::empty());
        r
    }

    /// Records that the traversal reads the struct field `name` at position
    /// `idx`.
    pub fn read_struct_field(&mut self, name: Vec<u8>, idx: usize)
        ensures
            final(self)@ == if is_anonymous(name@, idx as nat) {
                old(self)@
            } else {
                old(self)@.push(name@)
            },
    {
        if !is_positional_name(&name, idx) {
            let ghost before = rows_view(self.field_names@);
            let ghost pushed = name@;
            self.field_names.push(name);
            assert(rows_view(self.field_names@) =~= before.push(pushed));
        }
    }

    /// The names recorded so far, in the order they were read.
    pub fn into_field_names(self) -> (r: Vec<Vec<u8>>)
        ensures
            rows_view(r@) == self@,
    {
        self.field_names
    }
}

/// Collects the field names of a record type while a value of it encodes
/// itself: every struct field that the traversal emits is recorded, in
/// emitting order, unless its name is a tuple-struct placeholder. The values
/// of the fields are not looked at.
pub struct FieldNamesEncoder {
    record: Vec<Vec<u8>>,
}

impl View for FieldNamesEncoder {
    type V = Seq<Seq<u8>>;

    closed spec fn view(&self) -> Seq<Seq<u8>> {
        rows_view(self.record@)
    }
}

impl FieldNamesEncoder {
    /// A collector that has seen no field yet.
    pub fn new() -> (r: FieldNamesEncoder)
        ensures
            r@ == Seq::<Seq<u8>>::empty(),
    {
        let r = FieldNamesEncoder { record: Vec::new() };
        assert(r@ =~= Seq::<Seq<u8>>::empty());
        r
    }

    /// Records that the traversal emits the struct field `name` at position
    /// `idx`.
    pub fn emit_struct_field(&mut self, name: Vec<u8>, idx: usize)
        ensures
            final(self)@ == if is_anonymous(name@, idx as nat) {
                old(self)@
            } else {
                old(self)@.push(name@)
            },
    {
        if !is_positional_name(&name, idx) {
            let ghost before = rows_view(self.record@);
            let ghost pushed = name@;
            self.record.push(name);
            assert(rows_view(self.record@) =~= before.push(pushed));
        }
    }

    /// The names recorded so far, in the order they were emitted.
    pub fn into_field_names(self) -> (r: Vec<Vec<u8>>)
        ensures
            rows_view(r@) == self@,
    {
        self.record
    }
}

/// The names gathered from a sequence of struct-field visits are exactly the
/// names of the named visits, in visiting order; anonymous tuple positions
/// are left out, so there is one name for each named field.
pub proof fn lemma_field_names_are_named_visits(visits: Seq<(Seq<u8>, nat)>)
    ensures
        named_fields(visits) == visits.filter(|v: (Seq<u8>, nat)| !is_anonymous(v.0, v.1)).map_values(
            |v: (Seq<u8>, nat)| v.0,
        ),
    decreases visits.len(),
{
    let keep = |v: (Seq<u8>, nat)| !is_anonymous(v.0, v.1);
    let name = |v: (Seq<u8>, nat)| v.0;
    reveal(Seq::filter);
    if visits.len() > 0 {
        lemma_field_names_are_named_visits(visits.drop_last());
        let sub = visits.drop_last().filter(keep);
        if keep(visits.last()) {
            assert(sub.push(visits.last()).map_values(name) =~= sub.map_values(name).push(
                visits.last().0,
            ));
        }
    } else {
        assert(visits.filter(keep).map_values(name) =~= Seq::<Seq<u8>>::empty());
    }
}

} // verus!
