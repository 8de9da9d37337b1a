//! Inheritance resolution: a record that names a base through `copy-from`
//! is merged onto the resolved base, found in a store of raw records.

use vstd::prelude::*;
use crate::records::{Record, RecordModel, Field, fields_map, text_of, lemma_fields_map_push};

verus! {

/// Why a resolution pass fails, with the reference at fault.
#[derive(Clone, Debug, PartialEq, Eq)]
pub enum ResolveError {
    /// No record answers to the reference.
    MissingReference(String),
    /// Several records answer to the reference and none stands out.
    AmbiguousReference(String),
    /// A field that resolution reads does not hold a string.
    UnsupportedShape,
    /// The chain of bases that starts at the reference never ends.
    CyclicReference(String),
}

/// The model of a resolution failure.
pub enum ResolveFailure {
    Missing(Seq<char>),
    Ambiguous(Seq<char>),
    Unsupported,
    Cyclic(Seq<char>),
}

impl View for ResolveError {
    type V = ResolveFailure;

    open spec fn view(&self) -> ResolveFailure {
        match self {
            ResolveError::MissingReference(s) => ResolveFailure::Missing(s@),
            ResolveError::AmbiguousReference(s) => ResolveFailure::Ambiguous(s@),
            ResolveError::UnsupportedShape => ResolveFailure::Unsupported,
            ResolveError::CyclicReference(s) => ResolveFailure::Cyclic(s@),
        }
    }
}

/// An indexed collection of raw records, built once and then only read.
#[derive(Clone, Debug, PartialEq)]
pub struct RecordStore {
    pub records: Vec<Record>,
}

/// The optional type that a candidate must have, as characters.
pub open spec fn wanted_type(typ: Option<&String>) -> Option<Seq<char>> {
    match typ {
        Some(t) => Some(t@),
        None => None,
    }
}

/// Record `i` has the identifier `name` and, where one is asked for, the
/// type `typ`.
pub open spec fn has_id(store: Seq<RecordModel>, name: Seq<char>, typ: Option<Seq<char>>, i: int) -> bool {
    text_of(store[i], "id"@) == Some(name) && (typ.is_none() || text_of(store[i], "type"@)
        == typ)
}

/// The positions before `upto` of the records that have the identifier, in
/// rising order.
pub open spec fn positions_with_id(
    store: Seq<RecordModel>,
    name: Seq<char>,
    typ: Option<Seq<char>>,
    upto: int,
) -> Seq<int>
    decreases upto,
{
    if upto <= 0 {
        Seq::empty()
    } else {
        let before = positions_with_id(store, name, typ, upto - 1);
        if has_id(store, name, typ, upto - 1) {
            before.push(upto - 1)
        } else {
            before
        }
    }
}

/// Record `i` is the template `name`.
pub open spec fn names_abstract(store: Seq<RecordModel>, name: Seq<char>, i: int) -> bool {
    text_of(store[i], "abstract"@) == Some(name)
}

/// Record `i` yields `name` and carries no variant suffix.
pub open spec fn names_result(store: Seq<RecordModel>, name: Seq<char>, i: int) -> bool {
    text_of(store[i], "result"@) == Some(name) && !store[i].contains_key("id_suffix"@)
}

/// The last position before `upto` of a template `name`.
pub open spec fn last_abstract(store: Seq<RecordModel>, name: Seq<char>, upto: int) -> Option<int>
    decreases upto,
{
    if upto <= 0 {
        None
    } else if names_abstract(store, name, upto - 1) {
        Some(upto - 1)
    } else {
        last_abstract(store, name, upto - 1)
    }
}

/// The last position before `upto` of a record without suffix that yields
/// `name`.
pub open spec fn last_result(store: Seq<RecordModel>, name: Seq<char>, upto: int) -> Option<int>
    decreases upto,
{
    if upto <= 0 {
        None
    } else if names_result(store, name, upto - 1) {
        Some(upto - 1)
    } else {
        last_result(store, name, upto - 1)
    }
}

/// The position of the base that a record of type `typ` names by `from`.
///
/// A recipe names another recipe by its result. Any other record names a
/// record by its identifier, or else a template. Among several records with
/// the identifier, the one of the same type is meant if there is exactly
/// one; failing that, a generic item that names `bone` means the one
/// material of that identifier.
pub open spec fn base_position(store: Seq<RecordModel>, typ: Seq<char>, from: Seq<char>) -> Result<
    int,
    ResolveFailure,
> {
    let n = store.len() as int;
    if typ == "recipe"@ {
        match last_result(store, from, n) {
            Some(i) => Ok(i),
            None => Err(ResolveFailure::Missing(from)),
        }
    } else {
        let all = positions_with_id(store, from, None, n);
        let same = positions_with_id(store, from, Some(typ), n);
        let bone = positions_with_id(store, from, Some("material"@), n);
        if all.len() == 0 {
            match last_abstract(store, from, n) {
                Some(i) => Ok(i),
                None => Err(ResolveFailure::Missing(from)),
            }
        } else if all.len() == 1 {
            Ok(all.last())
        } else if same.len() == 1 {
            Ok(same.last())
        } else if from == "bone"@ && typ == "GENERIC"@ && bone.len() == 1 {
            Ok(bone.last())
        } else {
            Err(ResolveFailure::Ambiguous(from))
        }
    }
}

/// The merge of a record onto its resolved base: the base without its
/// `copy-from`, `id` and `abstract`, overlaid with every field of the
/// record itself but its `copy-from`. No reference to a base is left.
pub open spec fn merged(base: RecordModel, own: RecordModel) -> RecordModel {
    base.remove("copy-from"@).remove("id"@).remove("abstract"@).union_prefer_right(own).remove(
        "copy-from"@,
    )
}

/// The record names a base that resolution follows: it has a `copy-from`
/// that does not read `water`.
pub open spec fn follows_base(rec: RecordModel) -> bool {
    rec.contains_key("copy-from"@) && text_of(rec, "copy-from"@) != Some("water"@)
}

/// The resolved form of a record, following at most `fuel` bases.
///
/// A record without `copy-from`, or one that names `water`, is its own
/// resolved form.
pub open spec fn resolved(store: Seq<RecordModel>, rec: RecordModel, fuel: nat) -> Result<
    RecordModel,
    ResolveFailure,
>
    decreases fuel,
{
    if !rec.contains_key("copy-from"@) {
        Ok(rec)
    } else {
        match text_of(rec, "copy-from"@) {
            None => Err(ResolveFailure::Unsupported),
            Some(from) => if from == "water"@ {
                Ok(rec)
            } else {
                match text_of(rec, "type"@) {
                    None => Err(ResolveFailure::Unsupported),
                    Some(typ) => match base_position(store, typ, from) {
                        Err(e) => Err(e),
                        Ok(i) => if fuel == 0 {
                            Err(ResolveFailure::Cyclic(from))
                        } else {
                            match resolved(store, store[i], (fuel - 1) as nat) {
                                Err(e) => Err(e),
                                Ok(base) => Ok(merged(base, rec)),
                            }
                        },
                    },
                }
            },
        }
    }
}

/// The usable records after resolving the first `upto` records of the
/// store: the resolved forms, in order, without the templates.
pub open spec fn resolved_all(store: Seq<RecordModel>, upto: int) -> Result<
    Seq<RecordModel>,
    ResolveFailure,
>
    decreases upto,
{
    if upto <= 0 {
        Ok(Seq::empty())
    } else {
        match resolved_all(store, upto - 1) {
            Err(e) => Err(e),
            Ok(done) => match resolved(store, store[upto - 1], store.len()) {
                Err(e) => Err(e),
                Ok(r) => if r.contains_key("abstract"@) {
                    Ok(done)
                } else {
                    Ok(done.push(r))
                },
            },
        }
    }
}

/// The models of a list of records, in order.
pub open spec fn record_models(v: Seq<Record>) -> Seq<RecordModel> {
    v.map_values(|r: Record| r@)
}

/// Resolving a record without `copy-from` gives the record back.
pub proof fn lemma_resolution_identity(store: Seq<RecordModel>, rec: RecordModel, fuel: nat)
    requires
        !rec.contains_key("copy-from"@),
    ensures
        resolved(store, rec, fuel) == Ok::<RecordModel, ResolveFailure>(rec),
{
}

/// Every field of a record but its `copy-from` is in its resolved form,
/// with the record's own value, whatever the base holds under that name.
pub proof fn lemma_override_precedence(
    store: Seq<RecordModel>,
    rec: RecordModel,
    fuel: nat,
    out: RecordModel,
    key: Seq<char>,
)
    requires
        resolved(store, rec, fuel) == Ok::<RecordModel, ResolveFailure>(out),
        rec.contains_key(key),
        key != "copy-from"@,
    ensures
        out.contains_key(key),
        out[key] == rec[key],
{
}

/// The resolved form of a record that follows a base has no `copy-from`,
/// and it has `id` or `abstract` only from the record itself, never from a
/// base.
pub proof fn lemma_metadata_stripping(
    store: Seq<RecordModel>,
    rec: RecordModel,
    fuel: nat,
    out: RecordModel,
    key: Seq<char>,
)
    requires
        resolved(store, rec, fuel) == Ok::<RecordModel, ResolveFailure>(out),
        follows_base(rec),
        key == "id"@ || key == "abstract"@,
    ensures
        !out.contains_key("copy-from"@),
        out.contains_key(key) ==> rec.contains_key(key) && out[key] == rec[key],
{
}

/// The resolved form of a record that follows no base is the record.
pub proof fn lemma_terminal_unchanged(
    store: Seq<RecordModel>,
    rec: RecordModel,
    fuel: nat,
)
    requires
        !follows_base(rec),
    ensures
        resolved(store, rec, fuel) == Ok::<RecordModel, ResolveFailure>(rec),
{
}

/// A resolved form is a template exactly when the record is one.
pub proof fn lemma_template_stays(
    store: Seq<RecordModel>,
    rec: RecordModel,
    fuel: nat,
    out: RecordModel,
)
    requires
        resolved(store, rec, fuel) == Ok::<RecordModel, ResolveFailure>(out),
    ensures
        out.contains_key("abstract"@) <==> rec.contains_key("abstract"@),
{
    reveal_strlit("abstract");
    reveal_strlit("copy-from");
    assert("abstract"@.len() != "copy-from"@.len());
}

/// How many of the first `upto` records of the store are no templates.
pub open spec fn kept_before(store: Seq<RecordModel>, upto: int) -> int
    decreases upto,
{
    if upto <= 0 {
        0
    } else {
        kept_before(store, upto - 1) + if store[upto - 1].contains_key("abstract"@) {
            0int
        } else {
            1int
        }
    }
}

/// A resolution pass that succeeds gives one usable record for every
/// record that is no template, and no other: as many as there are such
/// records, each the resolved form of its record, in the order of the
/// store.
pub proof fn lemma_one_record_per_input(
    store: Seq<RecordModel>,
    upto: int,
    usable: Seq<RecordModel>,
)
    requires
        0 <= upto <= store.len(),
        resolved_all(store, upto) == Ok::<Seq<RecordModel>, ResolveFailure>(usable),
    ensures
        usable.len() == kept_before(store, upto),
        forall|i: int|
            0 <= i < upto && !(#[trigger] store[i]).contains_key("abstract"@) ==> 0 <= kept_before(
                store,
                i,
            ) < usable.len() && resolved(store, store[i], store.len()) == Ok::<
                RecordModel,
                ResolveFailure,
            >(usable[kept_before(store, i)]),
    decreases upto,
{
    if upto > 0 {
        match resolved_all(store, upto - 1) {
            Ok(done) => {
                lemma_one_record_per_input(store, upto - 1, done);
                match resolved(store, store[upto - 1], store.len()) {
                    Ok(r) => {
                        lemma_template_stays(store, store[upto - 1], store.len(), r);
                        assert forall|i: int|
                            0 <= i < upto && !(#[trigger] store[i]).contains_key(
                                "abstract"@,
                            ) implies 0 <= kept_before(store, i) < usable.len() && resolved(
                            store,
                            store[i],
                            store.len(),
                        ) == Ok::<RecordModel, ResolveFailure>(usable[kept_before(store, i)]) by {
                            if i < upto - 1 {
                                assert(usable[kept_before(store, i)] == done[kept_before(store, i)]);
                            }
                        }
                    },
                    Err(_) => {},
                }
            },
            Err(_) => {},
        }
    }
}

/// No usable record of a resolution pass is a template.
pub proof fn lemma_abstract_elimination(store: Seq<RecordModel>, upto: int, usable: Seq<RecordModel>)
    requires
        resolved_all(store, upto) == Ok::<Seq<RecordModel>, ResolveFailure>(usable),
    ensures
        forall|i: int| 0 <= i < usable.len() ==> !(#[trigger] usable[i]).contains_key("abstract"@),
    decreases upto,
{
    if upto > 0 {
        match resolved_all(store, upto - 1) {
            Ok(done) => {
                lemma_abstract_elimination(store, upto - 1, done);
            },
            Err(_) => {},
        }
    }
}

/// Whether the string reads as the literal.
pub fn reads(s: &String, literal: &str) -> (r: bool)
    ensures
        r == (s@ == literal@),
{
    *s == literal.to_owned()
}

/// Merges a record onto its resolved base.
pub fn merge(base: Record, own: &Record) -> (r: Record)
    ensures
        r@ == merged(base@, own@),
{
    let mut working = base;
    working.remove("copy-from");
    working.remove("id");
    working.remove("abstract");
    let ghost stripped = working@;
    let mut i: usize = 0;
    assert(own.fields@.take(0) =~= Seq::<Field>::empty());
    assert(working@ =~= stripped.union_prefer_right(fields_map(own.fields@.take(0))));
    while i < own.fields.len()
        invariant
            i <= own.fields.len(),
            working@ == stripped.union_prefer_right(fields_map(own.fields@.take(i as int))),
        decreases own.fields.len() - i,
    {
        let ghost before = working@;
        working.insert(own.fields[i].key.clone(), own.fields[i].value.duplicate());
        proof {
            let f = own.fields@[i as int];
            assert(own.fields@.take(i + 1) =~= own.fields@.take(i as int).push(f));
            lemma_fields_map_push(own.fields@.take(i as int), f);
            assert(working@ =~= stripped.union_prefer_right(fields_map(own.fields@.take(i + 1))));
        }
        i += 1;
    }
    assert(own.fields@.take(own.fields.len() as int) =~= own.fields@);
    working.remove("copy-from");
    working
}

impl RecordStore {
    /// How many records have the identifier `name` and, where one is asked
    /// for, the type `typ`; and the position of the last of them.
    fn count_with_id(&self, name: &String, typ: Option<&String>) -> (r: (usize, usize))
        ensures
            r.0 == positions_with_id(
                record_models(self.records@),
                name@,
                wanted_type(typ),
                self.records.len() as int,
            ).len(),
            r.0 > 0 ==> r.1 < self.records.len() && r.1 == positions_with_id(
                record_models(self.records@),
                name@,
                wanted_type(typ),
                self.records.len() as int,
            ).last(),
    {
        let mut count: usize = 0;
        let mut last: usize = 0;
        let mut i: usize = 0;
        while i < self.records.len()
            invariant
                i <= self.records.len(),
                count <= i,
                count == positions_with_id(record_models(self.records@), name@, wanted_type(typ), i as int).len(),
                count > 0 ==> last < i && last == positions_with_id(
                    record_models(self.records@),
                    name@,
                    wanted_type(typ),
                    i as int,
                ).last(),
            decreases self.records.len() - i,
        {
            let record = &self.records[i];
            let id_matches = match record.text("id") {
                Some(id) => *id == *name,
                None => false,
            };
            let type_matches = match typ {
                None => true,
                Some(t) => match record.text("type") {
                    Some(own) => *own == *t,
                    None => false,
                },
            };
            if id_matches && type_matches {
                count += 1;
                last = i;
            }
            i += 1;
        }
        (count, last)
    }

    /// The position of the last template `name`.
    fn find_abstract(&self, name: &String) -> (r: Option<usize>)
        ensures
            match r {
                Some(i) => i < self.records.len() && last_abstract(
                    record_models(self.records@),
                    name@,
                    self.records.len() as int,
                ) == Some(i as int),
                None => last_abstract(record_models(self.records@), name@, self.records.len() as int).is_none(),
            },
    {
        let mut found: Option<usize> = None;
        let mut i: usize = 0;
        while i < self.records.len()
            invariant
                i <= self.records.len(),
                match found {
                    Some(p) => p < i && last_abstract(record_models(self.records@), name@, i as int) == Some(
                        p as int,
                    ),
                    None => last_abstract(record_models(self.records@), name@, i as int).is_none(),
                },
            decreases self.records.len() - i,
        {
            let matches = match self.records[i].text("abstract") {
                Some(a) => *a == *name,
                None => false,
            };
            if matches {
                found = Some(i);
            }
            i += 1;
        }
        found
    }

    /// The position of the last record without suffix that yields `name`.
    fn find_result(&self, name: &String) -> (r: Option<usize>)
        ensures
            match r {
                Some(i) => i < self.records.len() && last_result(
                    record_models(self.records@),
                    name@,
                    self.records.len() as int,
                ) == Some(i as int),
                None => last_result(record_models(self.records@), name@, self.records.len() as int).is_none(),
            },
    {
        let mut found: Option<usize> = None;
        let mut i: usize = 0;
        while i < self.records.len()
            invariant
                i <= self.records.len(),
                match found {
                    Some(p) => p < i && last_result(record_models(self.records@), name@, i as int) == Some(
                        p as int,
                    ),
                    None => last_result(record_models(self.records@), name@, i as int).is_none(),
                },
            decreases self.records.len() - i,
        {
            let matches = match self.records[i].text("result") {
                Some(a) => *a == *name && !self.records[i].has("id_suffix"),
                None => false,
            };
            if matches {
                found = Some(i);
            }
            i += 1;
        }
        found
    }

    /// The position of the base that a record of type `typ` names by
    /// `from`, or why there is none.
    pub fn base_of(&self, typ: &String, from: &String) -> (r: Result<usize, ResolveError>)
        ensures
            match r {
                Ok(i) => i < self.records.len() && base_position(record_models(self.records@), typ@, from@) == Ok::<
                    int,
                    ResolveFailure,
                >(i as int),
                Err(e) => base_position(record_models(self.records@), typ@, from@) == Err::<int, ResolveFailure>(
                    e@,
                ),
            },
    {
        if reads(typ, "recipe") {
            return match self.find_result(from) {
                Some(i) => Ok(i),
                None => Err(ResolveError::MissingReference(from.clone())),
            };
        }
        let all = self.count_with_id(from, None);
        if all.0 == 0 {
            return match self.find_abstract(from) {
                Some(i) => Ok(i),
                None => Err(ResolveError::MissingReference(from.clone())),
            };
        }
        if all.0 == 1 {
            return Ok(all.1);
        }
        let same = self.count_with_id(from, Some(typ));
        if same.0 == 1 {
            return Ok(same.1);
        }
        if reads(from, "bone") && reads(typ, "GENERIC") {
            let material = "material".to_owned();
            let bone = self.count_with_id(from, Some(&material));
            if bone.0 == 1 {
                return Ok(bone.1);
            }
        }
        Err(ResolveError::AmbiguousReference(from.clone()))
    }

    fn resolve_bounded(&self, record: &Record, fuel: usize) -> (r: Result<Record, ResolveError>)
        ensures
            match r {
                Ok(out) => resolved(record_models(self.records@), record@, fuel as nat) == Ok::<
                    RecordModel,
                    ResolveFailure,
                >(out@),
                Err(e) => resolved(record_models(self.records@), record@, fuel as nat) == Err::<
                    RecordModel,
                    ResolveFailure,
                >(e@),
            },
        decreases fuel,
    {
        if !record.has("copy-from") {
            return Ok(record.duplicate());
        }
        let from = match record.text("copy-from") {
            Some(f) => f,
            None => {
                return Err(ResolveError::UnsupportedShape);
            },
        };
        if reads(from, "water") {
            return Ok(record.duplicate());
        }
        let typ = match record.text("type") {
            Some(t) => t,
            None => {
                return Err(ResolveError::UnsupportedShape);
            },
        };
        let position = match self.base_of(typ, from) {
            Ok(i) => i,
            Err(e) => {
                return Err(e);
            },
        };
        if fuel == 0 {
            return Err(ResolveError::CyclicReference(from.clone()));
        }
        match self.resolve_bounded(&self.records[position], fuel - 1) {
            Ok(base) => Ok(merge(base, record)),
            Err(e) => Err(e),
        }
    }

    /// The resolved form of a record: the record itself where it names no
    /// base, and otherwise the record merged onto its resolved base. A
    /// chain of bases longer than the store holds records is reported as
    /// cyclic.
    pub fn resolve(&self, record: &Record) -> (r: Result<Record, ResolveError>)
        ensures
            match r {
                Ok(out) => resolved(record_models(self.records@), record@, self.records.len() as nat) == Ok::<
                    RecordModel,
                    ResolveFailure,
                >(out@),
                Err(e) => resolved(record_models(self.records@), record@, self.records.len() as nat) == Err::<
                    RecordModel,
                    ResolveFailure,
                >(e@),
            },
            !record@.contains_key("copy-from"@) ==> r.is_ok(),
    {
        self.resolve_bounded(record, self.records.len())
    }

    /// A full resolution pass: every record of the store is resolved, and
    /// the templates are then left out.
    pub fn resolve_all(&self) -> (r: Result<Vec<Record>, ResolveError>)
        ensures
            match r {
                Ok(usable) => resolved_all(record_models(self.records@), self.records.len() as int) == Ok::<
                    Seq<RecordModel>,
                    ResolveFailure,
                >(record_models(usable@)) && forall|i: int|
                    0 <= i < usable.len() ==> !(#[trigger] usable@[i])@.contains_key("abstract"@),
                Err(e) => resolved_all(record_models(self.records@), self.records.len() as int) == Err::<
                    Seq<RecordModel>,
                    ResolveFailure,
                >(e@),
            },
    {
        let mut usable: Vec<Record> = Vec::new();
        let mut i: usize = 0;
        assert(record_models(usable@) =~= Seq::<RecordModel>::empty());
        while i < self.records.len()
            invariant
                i <= self.records.len(),
                resolved_all(record_models(self.records@), i as int) == Ok::<Seq<RecordModel>, ResolveFailure>(
                    record_models(usable@),
                ),
                forall|j: int|
                    0 <= j < usable.len() ==> !(#[trigger] usable@[j])@.contains_key("abstract"@),
            decreases self.records.len() - i,
        {
            match self.resolve(&self.records[i]) {
                Err(e) => {
                    proof {
                        lemma_failure_stays(record_models(self.records@), i + 1, self.records.len() as int);
                    }
                    return Err(e);
                },
                Ok(out) => {
                    if !out.has("abstract") {
                        let ghost before = record_models(usable@);
                        usable.push(out);
                        assert(record_models(usable@) =~= before.push(out@));
                    }
                },
            }
            i += 1;
        }
        Ok(usable)
    }
}

/// A failure among the first records is the failure of the whole pass.
proof fn lemma_failure_stays(store: Seq<RecordModel>, upto: int, all: int)
    requires
        0 <= upto <= all,
        resolved_all(store, upto).is_err(),
    ensures
        resolved_all(store, all) == resolved_all(store, upto),
    decreases all - upto,
{
    if upto < all {
        lemma_failure_stays(store, upto + 1, all);
    }
}

} // verus!
