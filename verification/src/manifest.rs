//! Manifest logic: reading a package descriptor out of manifest JSON,
//! splicing resolved dependencies back in, the default manifest, and
//! request parsing.

use vstd::prelude::*;
use crate::json::Json;
use crate::kv::{distinct_keys, has_key, kv_contains, kv_get, kv_set, lemma_value_of_distinct,
    lemma_value_of_first, value_of};
use crate::pkg::Package;

verus! {

/// The string-valued entries of a JSON object's fields, first binding of
/// each key, in order, appended to `acc`.
pub open spec fn collect_str_entries(fields: Seq<(String, Json)>, acc: Seq<(String, String)>) -> Seq<
    (String, String),
>
    decreases fields.len(),
{
    if fields.len() == 0 {
        acc
    } else {
        let e = fields[0];
        if e.1 is Str && !has_key(acc, e.0@) {
            collect_str_entries(fields.drop_first(), acc.push((e.0, e.1->Str_0)))
        } else {
            collect_str_entries(fields.drop_first(), acc)
        }
    }
}

/// Extracts the string-valued entries of a JSON object's fields,
/// skipping other values and duplicate keys.
fn str_entries(fields: &Vec<(String, Json)>) -> (r: Vec<(String, String)>)
    ensures
        r@ == collect_str_entries(fields@, Seq::empty()),
        distinct_keys(r@),
{
    let n = fields.len();
    let mut out: Vec<(String, String)> = Vec::new();
    let mut i: usize = 0;
    proof {
        assert(fields@.skip(0) =~= fields@);
        assert(out@ =~= Seq::<(String, String)>::empty());
    }
    while i < n
        invariant
            n == fields@.len(),
            0 <= i <= n,
            distinct_keys(out@),
            collect_str_entries(fields@, Seq::empty()) == collect_str_entries(
                fields@.skip(i as int),
                out@,
            ),
        decreases n - i,
    {
        proof {
            assert(fields@.skip(i as int)[0] == fields@[i as int]);
            assert(fields@.skip(i as int).drop_first() =~= fields@.skip(i + 1 as int));
        }
        let is_new = !kv_contains(&out, &fields[i].0);
        match &fields[i].1 {
            Json::Str(s) => {
                if is_new {
                    let ghost out0 = out@;
                    out.push((fields[i].0.clone(), s.clone()));
                    proof {
                        assert(out@ =~= out0.push((fields@[i as int].0, fields@[i as int].1->Str_0)));
                        assert forall|a2: int, b2: int| 0 <= a2 < b2 < out@.len() implies (
                        #[trigger] out@[a2]).0@ != (#[trigger] out@[b2]).0@ by {
                            if b2 == out@.len() - 1 {
                                assert(out@[a2] == out0[a2]);
                                assert(!has_key(out0, fields@[i as int].0@));
                                assert(out@[a2].0@ != fields@[i as int].0@);
                            } else {
                                assert(out@[a2] == out0[a2] && out@[b2] == out0[b2]);
                            }
                        }
                    }
                }
            },
            _ => {
            },
        }
        i = i + 1;
    }
    proof {
        assert(fields@.skip(n as int) =~= Seq::<(String, Json)>::empty());
    }
    out
}

/// The text of a string field of the manifest, or the fallback when the
/// manifest is no object, lacks the field, or holds a non-string there.
pub open spec fn manifest_field_or(j: Json, f: Seq<char>, fallback: Seq<char>) -> Seq<char> {
    if j matches Json::Obj(fs) && has_key(j->Obj_0@, f) && value_of(j->Obj_0@, f) is Str {
        value_of(j->Obj_0@, f)->Str_0@
    } else {
        fallback
    }
}

/// The dependency map read from a field of the manifest: its
/// string-valued entries when the field holds an object, empty
/// otherwise.
pub open spec fn manifest_deps(j: Json, f: Seq<char>) -> Seq<(String, String)> {
    if j matches Json::Obj(fs) && has_key(j->Obj_0@, f) && value_of(j->Obj_0@, f) is Obj {
        collect_str_entries(value_of(j->Obj_0@, f)->Obj_0@, Seq::empty())
    } else {
        Seq::empty()
    }
}

/// Reads a string field with a fallback.
fn read_field_or(j: &Json, f: &String, fallback: &str) -> (r: String)
    ensures
        r@ == manifest_field_or(*j, f@, fallback@),
{
    match j {
        Json::Obj(fields) => match kv_get(fields, f) {
            Some(v) => match v {
                Json::Str(s) => s.clone(),
                _ => fallback.to_owned(),
            },
            None => fallback.to_owned(),
        },
        _ => fallback.to_owned(),
    }
}

/// Reads a dependency-map field.
fn read_deps(j: &Json, f: &String) -> (r: Vec<(String, String)>)
    ensures
        r@ == manifest_deps(*j, f@),
        distinct_keys(r@),
{
    match j {
        Json::Obj(fields) => match kv_get(fields, f) {
            Some(v) => match v {
                Json::Obj(inner) => str_entries(inner),
                _ => Vec::new(),
            },
            None => Vec::new(),
        },
        _ => Vec::new(),
    }
}

/// Reads a package descriptor out of manifest JSON: `name` (fallback
/// `unknown`), `version` (fallback `0.0.0`), and the string-valued
/// entries of `dependencies` and `devDependencies`.
pub fn package_from_manifest(j: &Json) -> (r: Package)
    ensures
        r.wf(),
        r.name@ == manifest_field_or(*j, "name"@, "unknown"@),
        r.version@ == manifest_field_or(*j, "version"@, "0.0.0"@),
        r.dependencies@ == manifest_deps(*j, "dependencies"@),
        r.dev_dependencies@ == manifest_deps(*j, "devDependencies"@),
{
    Package {
        name: read_field_or(j, &"name".to_owned(), "unknown"),
        version: read_field_or(j, &"version".to_owned(), "0.0.0"),
        dependencies: read_deps(j, &"dependencies".to_owned()),
        dev_dependencies: read_deps(j, &"devDependencies".to_owned()),
    }
}

} // verus!

verus! {

/// Drops later duplicate keys, keeping each key's first binding.
fn dedup_fields(fields: Vec<(String, Json)>) -> (r: Vec<(String, Json)>)
    ensures
        distinct_keys(r@),
        forall|q: Seq<char>| #[trigger] has_key(r@, q) <==> has_key(fields@, q),
        forall|q: Seq<char>|
            #[trigger] has_key(fields@, q) ==> value_of(r@, q) == value_of(fields@, q),
{
    let mut rest = fields;
    let mut out: Vec<(String, Json)> = Vec::new();
    let ghost all = rest@;
    proof {
        assert(all.skip(0) =~= all);
    }
    let ghost i: int = 0;
    while rest.len() > 0
        invariant
            0 <= i <= all.len(),
            rest@ == all.skip(i),
            distinct_keys(out@),
            forall|q: Seq<char>|
                #[trigger] has_key(out@, q) <==> (exists|m: int|
                    0 <= m < i && (#[trigger] all[m]).0@ == q),
            forall|q: Seq<char>|
                #[trigger] has_key(out@, q) ==> value_of(out@, q) == value_of(all, q),
        decreases rest@.len(),
    {
        proof {
            assert(all.skip(i)[0] == all[i]);
            assert(all.skip(i).drop_first() =~= all.skip(i + 1));
        }
        let pair = rest.remove(0);
        let taken = kv_contains(&out, &pair.0);
        if !taken {
            let ghost out0 = out@;
            let ghost pv = pair;
            proof {
                assert forall|m: int| 0 <= m < i implies (#[trigger] all[m]).0@ != pv.0@ by {
                    if all[m].0@ == pv.0@ {
                        assert(has_key(out0, pv.0@));
                    }
                }
                lemma_value_of_first(all, pv.0@, i);
            }
            out.push(pair);
            proof {
                assert(out@ =~= out0.push(pv));
                assert forall|a2: int, b2: int| 0 <= a2 < b2 < out@.len() implies (
                #[trigger] out@[a2]).0@ != (#[trigger] out@[b2]).0@ by {
                    if b2 == out@.len() - 1 {
                        assert(out@[a2] == out0[a2]);
                        assert(!has_key(out0, pv.0@));
                    } else {
                        assert(out@[a2] == out0[a2] && out@[b2] == out0[b2]);
                    }
                }
                assert forall|q: Seq<char>| #[trigger] has_key(out@, q) implies ((exists|m: int|
                    0 <= m < i + 1 && (#[trigger] all[m]).0@ == q) && value_of(out@, q)
                    == value_of(all, q)) by {
                    let m2 = choose|m2: int|
                        0 <= m2 < out@.len() && (#[trigger] out@[m2]).0@ == q;
                    lemma_value_of_distinct(out@, q, m2);
                    if m2 < out@.len() - 1 {
                        assert(out@[m2] == out0[m2]);
                        lemma_value_of_distinct(out0, q, m2);
                        assert(has_key(out0, q));
                        assert(all[i].0@ != q || !has_key(out0, q));
                    } else {
                        assert(all[i].0@ == q);
                    }
                }
                assert forall|q: Seq<char>| (exists|m: int|
                    0 <= m < i + 1 && (#[trigger] all[m]).0@ == q) implies #[trigger] has_key(
                    out@,
                    q,
                ) by {
                    let m = choose|m: int| 0 <= m < i + 1 && (#[trigger] all[m]).0@ == q;
                    if m < i {
                        assert(has_key(out0, q));
                        let m2 = choose|m2: int|
                            0 <= m2 < out0.len() && (#[trigger] out0[m2]).0@ == q;
                        assert(out@[m2].0@ == q);
                    } else {
                        assert(out@[out@.len() - 1].0@ == q);
                    }
                }
            }
        } else {
            proof {
                let ghost pv = pair;
                assert forall|q: Seq<char>| (exists|m: int|
                    0 <= m < i + 1 && (#[trigger] all[m]).0@ == q) implies #[trigger] has_key(
                    out@,
                    q,
                ) by {
                    let m = choose|m: int| 0 <= m < i + 1 && (#[trigger] all[m]).0@ == q;
                    if m == i {
                        assert(has_key(out@, pv.0@));
                    }
                }
            }
        }
        proof {
            i = i + 1;
        }
    }
    proof {
        assert(all.skip(i) =~= rest@);
        assert(i == all.len());
        assert forall|q: Seq<char>| #[trigger] has_key(all, q) implies has_key(out@, q) by {
            let m = choose|m: int| 0 <= m < all.len() && (#[trigger] all[m]).0@ == q;
        }
    }
    out
}

/// The fields of an object held in an optional JSON value; empty
/// otherwise.
pub open spec fn spec_obj_fields(o: Option<Json>) -> Seq<(String, Json)> {
    match o {
        Some(Json::Obj(v)) => v@,
        _ => Seq::empty(),
    }
}

/// Takes the fields out of an optional JSON object.
fn obj_fields(o: Option<Json>) -> (r: Vec<(String, Json)>)
    ensures
        r@ == spec_obj_fields(o),
{
    match o {
        Some(v) => match v {
            Json::Obj(fields) => fields,
            _ => Vec::new(),
        },
        None => Vec::new(),
    }
}

/// Splices the resolved dependencies into the manifest: the chosen field
/// (`dependencies`, or `devDependencies` for development installs) gains
/// one string entry per pair, everything else is preserved.
pub fn update_manifest(j: Json, deps: &Vec<(String, String)>, dev: bool) -> (r: Json)
    requires
        j is Obj,
        distinct_keys(deps@),
    ensures
        r is Obj,
        ({
            let field: Seq<char> = if dev {
                "devDependencies"@
            } else {
                "dependencies"@
            };
            &&& (forall|q: Seq<char>|
                q != field ==> (#[trigger] has_key(r->Obj_0@, q) <==> has_key(j->Obj_0@, q)))
            &&& (forall|q: Seq<char>|
                q != field && #[trigger] has_key(j->Obj_0@, q) ==> value_of(r->Obj_0@, q)
                    == value_of(j->Obj_0@, q))
            &&& has_key(r->Obj_0@, field)
            &&& value_of(r->Obj_0@, field) is Obj
            &&& (forall|m: int|
                0 <= m < deps@.len() ==> has_key(
                    value_of(r->Obj_0@, field)->Obj_0@,
                    (#[trigger] deps@[m]).0@,
                ) && (value_of(value_of(r->Obj_0@, field)->Obj_0@, deps@[m].0@)
                    matches Json::Str(x) && x@ == deps@[m].1@))
            &&& (forall|q: Seq<char>|
                !has_key(deps@, q) && #[trigger] has_key(
                    value_of(r->Obj_0@, field)->Obj_0@,
                    q,
                ) ==> has_key(j->Obj_0@, field) && value_of(j->Obj_0@, field) is Obj
                    && has_key(value_of(j->Obj_0@, field)->Obj_0@, q))
            &&& (forall|q: Seq<char>|
                !has_key(deps@, q) && has_key(j->Obj_0@, field) && value_of(
                    j->Obj_0@,
                    field,
                ) is Obj && #[trigger] has_key(value_of(j->Obj_0@, field)->Obj_0@, q)
                    ==> has_key(value_of(r->Obj_0@, field)->Obj_0@, q) && value_of(
                    value_of(r->Obj_0@, field)->Obj_0@,
                    q,
                ) == value_of(value_of(j->Obj_0@, field)->Obj_0@, q))
        }),
{
    let field: String = if dev {
        "devDependencies".to_owned()
    } else {
        "dependencies".to_owned()
    };
    let fields = match j {
        Json::Obj(fields) => fields,
        _ => vstd::pervasive::unreached(),
    };
    let mut rest = dedup_fields(fields);
    let ghost fields0 = rest@;
    // take the present field out
    let mut base_fields: Vec<(String, Json)> = Vec::new();
    let mut dfield: Option<Json> = None;
    let ghost i: int = 0;
    proof {
        assert(fields0.skip(0) =~= fields0);
    }
    while rest.len() > 0
        invariant
            0 <= i <= fields0.len(),
            rest@ == fields0.skip(i),
            distinct_keys(fields0),
            distinct_keys(base_fields@),
            forall|q: Seq<char>|
                #[trigger] has_key(base_fields@, q) <==> (q != field@ && (exists|m: int|
                    0 <= m < i && (#[trigger] fields0[m]).0@ == q)),
            forall|q: Seq<char>|
                #[trigger] has_key(base_fields@, q) ==> value_of(base_fields@, q) == value_of(
                    fields0,
                    q,
                ),
            match dfield {
                Some(v) => has_key(fields0, field@) && v == value_of(fields0, field@) && (
                exists|m: int| 0 <= m < i && (#[trigger] fields0[m]).0@ == field@),
                None => forall|m: int| 0 <= m < i ==> (#[trigger] fields0[m]).0@ != field@,
            },
        decreases rest@.len(),
    {
        proof {
            assert(fields0.skip(i)[0] == fields0[i]);
            assert(fields0.skip(i).drop_first() =~= fields0.skip(i + 1));
        }
        let pair = rest.remove(0);
        let ghost pv = pair;
        let is_field = pair.0 == field;
        if is_field {
            match dfield {
                None => {
                    proof {
                        crate::kv::lemma_value_of_first(fields0, field@, i);
                    }
                    dfield = Some(pair.1);
                },
                Some(_) => {
                    proof {
                        let m = choose|m: int|
                            0 <= m < i && (#[trigger] fields0[m]).0@ == field@;
                        assert(fields0[m].0@ != fields0[i].0@);
                        assert(false);
                    }
                },
            }
        } else {
            let ghost b0 = base_fields@;
            proof {
                if has_key(b0, pv.0@) {
                    let m = choose|m: int|
                        0 <= m < i && (#[trigger] fields0[m]).0@ == pv.0@;
                    assert(fields0[m].0@ != fields0[i].0@);
                    assert(false);
                }
                crate::kv::lemma_value_of_first(fields0, pv.0@, i);
            }
            base_fields.push(pair);
            proof {
                assert(base_fields@ =~= b0.push(pv));
                assert forall|a2: int, b2: int| 0 <= a2 < b2 < base_fields@.len() implies (
                #[trigger] base_fields@[a2]).0@ != (#[trigger] base_fields@[b2]).0@ by {
                    if b2 == base_fields@.len() - 1 {
                        assert(base_fields@[a2] == b0[a2]);
                        assert(has_key(b0, b0[a2].0@));
                    } else {
                        assert(base_fields@[a2] == b0[a2] && base_fields@[b2] == b0[b2]);
                    }
                }
                assert forall|q: Seq<char>| #[trigger] has_key(base_fields@, q) implies (q
                    != field@ && (exists|m: int|
                    0 <= m < i + 1 && (#[trigger] fields0[m]).0@ == q)) by {
                    let m2 = choose|m2: int|
                        0 <= m2 < base_fields@.len() && (#[trigger] base_fields@[m2]).0@
                            == q;
                    if m2 < base_fields@.len() - 1 {
                        assert(b0[m2].0@ == q);
                        assert(has_key(b0, q));
                    } else {
                        assert(fields0[i].0@ == q);
                    }
                }
                assert forall|q: Seq<char>| (q != field@ && (exists|m: int|
                    0 <= m < i + 1 && (#[trigger] fields0[m]).0@ == q)) implies
                    #[trigger] has_key(base_fields@, q) by {
                    let m = choose|m: int|
                        0 <= m < i + 1 && (#[trigger] fields0[m]).0@ == q;
                    if m < i {
                        assert(has_key(b0, q));
                        let m2 = choose|m2: int|
                            0 <= m2 < b0.len() && (#[trigger] b0[m2]).0@ == q;
                        assert(base_fields@[m2].0@ == q);
                    } else {
                        assert(base_fields@[base_fields@.len() - 1].0@ == q);
                    }
                }
                assert forall|q: Seq<char>| #[trigger] has_key(base_fields@, q) implies
                    value_of(base_fields@, q) == value_of(fields0, q) by {
                    let m2 = choose|m2: int|
                        0 <= m2 < base_fields@.len() && (#[trigger] base_fields@[m2]).0@
                            == q;
                    lemma_value_of_distinct(base_fields@, q, m2);
                    if m2 < base_fields@.len() - 1 {
                        assert(base_fields@[m2] == b0[m2]);
                        lemma_value_of_distinct(b0, q, m2);
                        assert(has_key(b0, q));
                    }
                }
            }
        }
        proof {
            i = i + 1;
        }
    }
    proof {
        assert(fields0.skip(i) =~= rest@);
        assert(i == fields0.len());
    }
    let inner_src = obj_fields(dfield);
    let mut inner = dedup_fields(inner_src);
    let ghost base = base_fields@;
    let ghost inner0 = inner@;
    proof {
        // merged facts about the base fields and the extracted object
        assert(distinct_keys(base));
        assert(!has_key(base, field@));
        assert forall|q: Seq<char>| q != field@ implies (#[trigger] has_key(base, q) <==>
            has_key(j->Obj_0@, q)) by {
            assert(has_key(fields0, q) <==> has_key(j->Obj_0@, q));
            if has_key(fields0, q) {
                let m = choose|m: int|
                    0 <= m < fields0.len() && (#[trigger] fields0[m]).0@ == q;
            }
        }
        assert forall|q: Seq<char>| q != field@ && #[trigger] has_key(j->Obj_0@, q) implies
            value_of(base, q) == value_of(j->Obj_0@, q) by {
            assert(has_key(fields0, q));
            assert(value_of(fields0, q) == value_of(j->Obj_0@, q));
            let m = choose|m: int|
                0 <= m < fields0.len() && (#[trigger] fields0[m]).0@ == q;
            assert(has_key(base, q));
        }
        assert forall|q: Seq<char>| #[trigger] has_key(inner0, q) implies has_key(
            j->Obj_0@,
            field@,
        ) && value_of(j->Obj_0@, field@) is Obj && has_key(
            value_of(j->Obj_0@, field@)->Obj_0@,
            q,
        ) by {
            assert(has_key(spec_obj_fields(dfield), q));
            assert(dfield matches Some(v) && v == value_of(fields0, field@));
            assert(has_key(fields0, field@));
            assert(value_of(fields0, field@) == value_of(j->Obj_0@, field@));
        }
    }
    // overlay the resolved pairs
    let dn = deps.len();
    let mut di: usize = 0;
    while di < dn
        invariant
            dn == deps@.len(),
            0 <= di <= dn,
            distinct_keys(deps@),
            distinct_keys(inner@),
            forall|q: Seq<char>|
                #[trigger] has_key(inner@, q) <==> (has_key(inner0, q) || (exists|m: int|
                    0 <= m < di && (#[trigger] deps@[m]).0@ == q)),
            forall|m: int|
                0 <= m < di ==> has_key(inner@, (#[trigger] deps@[m]).0@) && (value_of(
                    inner@,
                    deps@[m].0@,
                ) matches Json::Str(x) && x@ == deps@[m].1@),
            forall|q: Seq<char>|
                !has_key(deps@, q) && #[trigger] has_key(inner0, q) ==> value_of(inner@, q)
                    == value_of(inner0, q),
        decreases dn - di,
    {
        let ghost before = inner@;
        kv_set(&mut inner, deps[di].0.clone(), Json::Str(deps[di].1.clone()));
        proof {
            assert(value_of(inner@, deps@[di as int].0@) == Json::Str(deps@[di as int].1));
            assert forall|m: int| 0 <= m < di + 1 implies has_key(
                inner@,
                (#[trigger] deps@[m]).0@,
            ) && (value_of(inner@, deps@[m].0@) matches Json::Str(x) && x@
                == deps@[m].1@) by {
                if m < di {
                    assert(deps@[m].0@ != deps@[di as int].0@);
                    assert(has_key(before, deps@[m].0@));
                }
            }
            assert forall|q: Seq<char>| !has_key(deps@, q) && #[trigger] has_key(inner0, q)
                implies value_of(inner@, q) == value_of(inner0, q) by {
                assert(q != deps@[di as int].0@);
                assert(has_key(before, q));
                assert(value_of(inner@, q) == value_of(before, q));
            }
        }
        di = di + 1;
    }
    let ghost inner_v = inner@;
    let mut base_fields = base_fields;
    let ghost fieldv = field@;
    base_fields.push((field, Json::Obj(inner)));
    proof {
        let fv = base_fields@;
        assert(fv[fv.len() - 1].0@ == fieldv);
        assert(fv.drop_last() =~= base);
        assert forall|m: int| 0 <= m < fv.len() - 1 implies (#[trigger] fv[m]).0@
            != fieldv by {
            assert(fv[m] == base[m]);
            assert(has_key(base, fv[m].0@));
        }
        lemma_value_of_first(fv, fieldv, fv.len() - 1);
        assert(value_of(fv, fieldv)->Obj_0@ == inner_v);
        assert forall|q: Seq<char>| q != fieldv implies (#[trigger] has_key(fv, q) <==>
            has_key(base, q)) by {
            if has_key(fv, q) {
                let m = choose|m: int| 0 <= m < fv.len() && (#[trigger] fv[m]).0@ == q;
                assert(m < fv.len() - 1);
                assert(base[m].0@ == q);
            }
            if has_key(base, q) {
                let m = choose|m: int| 0 <= m < base.len() && (#[trigger] base[m]).0@ == q;
                assert(fv[m].0@ == q);
            }
        }
        assert forall|q: Seq<char>| q != fieldv && #[trigger] has_key(base, q) implies
            value_of(fv, q) == value_of(base, q) by {
            let m = choose|m: int| 0 <= m < base.len() && (#[trigger] base[m]).0@ == q;
            lemma_value_of_distinct(base, q, m);
            assert(fv[m].0@ == q);
            assert forall|m2: int| 0 <= m2 < m implies (#[trigger] fv[m2]).0@ != q by {
                assert(fv[m2] == base[m2]);
                assert(base[m2].0@ != base[m].0@);
            }
            lemma_value_of_first(fv, q, m);
        }
        assert forall|q: Seq<char>| q != fieldv && #[trigger] has_key(j->Obj_0@, q)
            implies value_of(fv, q) == value_of(j->Obj_0@, q) by {
            assert(has_key(base, q));
            assert(value_of(base, q) == value_of(j->Obj_0@, q));
            assert(value_of(fv, q) == value_of(base, q));
        }
        assert forall|q: Seq<char>|
            !has_key(deps@, q) && #[trigger] has_key(inner_v, q) implies has_key(
            j->Obj_0@,
            fieldv,
        ) && value_of(j->Obj_0@, fieldv) is Obj && has_key(
            value_of(j->Obj_0@, fieldv)->Obj_0@,
            q,
        ) by {
            assert(has_key(inner0, q)) by {
                if !has_key(inner0, q) {
                    let m = choose|m: int|
                        0 <= m < deps@.len() && (#[trigger] deps@[m]).0@ == q;
                    assert(has_key(deps@, q));
                }
            }
        }
        assert forall|q: Seq<char>|
            !has_key(deps@, q) && has_key(j->Obj_0@, fieldv) && value_of(
                j->Obj_0@,
                fieldv,
            ) is Obj && #[trigger] has_key(value_of(j->Obj_0@, fieldv)->Obj_0@, q) implies
            has_key(inner_v, q) && value_of(inner_v, q) == value_of(
            value_of(j->Obj_0@, fieldv)->Obj_0@,
            q,
        ) by {
            assert(has_key(fields0, fieldv));
            assert(value_of(fields0, fieldv) == value_of(j->Obj_0@, fieldv));
            if dfield is None {
                let m = choose|m: int|
                    0 <= m < fields0.len() && (#[trigger] fields0[m]).0@ == fieldv;
                assert(false);
            }
            assert(spec_obj_fields(dfield) == value_of(j->Obj_0@, fieldv)->Obj_0@);
            assert(has_key(spec_obj_fields(dfield), q));
            assert(has_key(inner0, q));
            assert(value_of(inner0, q) == value_of(value_of(j->Obj_0@, fieldv)->Obj_0@, q));
            assert(value_of(inner_v, q) == value_of(inner0, q));
        }
    }
    Json::Obj(base_fields)
}

} // verus!

verus! {

/// The default manifest: version 1.0.0, entry point `index.js`, license
/// ISC, a placeholder test script, and empty dependency maps.
pub fn default_manifest(name: &str) -> (r: Json)
    ensures
        r is Obj,
        distinct_keys(r->Obj_0@),
        manifest_field_or(r, "name"@, ""@) == name@,
        manifest_field_or(r, "version"@, ""@) == "1.0.0"@,
        manifest_deps(r, "dependencies"@) == Seq::<(String, String)>::empty(),
        manifest_deps(r, "devDependencies"@) == Seq::<(String, String)>::empty(),
{
    let mut scripts: Vec<(String, Json)> = Vec::new();
    scripts.push((
        "test".to_owned(),
        Json::Str("echo \"Error: no test specified\" && exit 1".to_owned()),
    ));
    let mut fields: Vec<(String, Json)> = Vec::new();
    fields.push(("name".to_owned(), Json::Str(name.to_owned())));
    fields.push(("version".to_owned(), Json::Str("1.0.0".to_owned())));
    fields.push(("description".to_owned(), Json::Str("".to_owned())));
    fields.push(("main".to_owned(), Json::Str("index.js".to_owned())));
    fields.push(("scripts".to_owned(), Json::Obj(scripts)));
    fields.push(("author".to_owned(), Json::Str("".to_owned())));
    fields.push(("license".to_owned(), Json::Str("ISC".to_owned())));
    fields.push(("dependencies".to_owned(), Json::Obj(Vec::new())));
    fields.push(("devDependencies".to_owned(), Json::Obj(Vec::new())));
    proof {
        reveal_strlit("name");
        reveal_strlit("version");
        reveal_strlit("description");
        reveal_strlit("main");
        reveal_strlit("scripts");
        reveal_strlit("author");
        reveal_strlit("license");
        reveal_strlit("dependencies");
        reveal_strlit("devDependencies");
        assert(fields@.len() == 9);
        assert(fields@[0].0@ == "name"@ && fields@[1].0@ == "version"@ && fields@[2].0@
            == "description"@ && fields@[3].0@ == "main"@ && fields@[4].0@ == "scripts"@
            && fields@[5].0@ == "author"@ && fields@[6].0@ == "license"@ && fields@[7].0@
            == "dependencies"@ && fields@[8].0@ == "devDependencies"@);
        assert forall|a: int, b: int| 0 <= a < b < fields@.len() implies (
        #[trigger] fields@[a]).0@ != (#[trigger] fields@[b]).0@ by {
            assert(fields@[a].0@.len() != fields@[b].0@.len() || fields@[a].0@[0]
                != fields@[b].0@[0]);
        }
        assert(distinct_keys(fields@));
        lemma_value_of_distinct(fields@, "name"@, 0);
        lemma_value_of_distinct(fields@, "version"@, 1);
        lemma_value_of_distinct(fields@, "dependencies"@, 7);
        lemma_value_of_distinct(fields@, "devDependencies"@, 8);
    }
    Json::Obj(fields)
}

/// The index of the first `@` in the text (its length when it has none).
pub open spec fn first_at(s: Seq<char>) -> int
    decreases s.len(),
{
    if s.len() == 0 {
        0
    } else if s[0] == '@' {
        0
    } else {
        1 + first_at(s.drop_first())
    }
}

/// `first_at` points at the first `@`.
proof fn lemma_first_at(s: Seq<char>, i: int)
    requires
        0 <= i <= s.len(),
        forall|m: int| 0 <= m < i ==> s[m] != '@',
        i < s.len() ==> s[i] == '@',
        i == s.len() ==> forall|m: int| 0 <= m < s.len() ==> s[m] != '@',
    ensures
        first_at(s) == i,
    decreases i,
{
    if s.len() > 0 && i > 0 {
        assert forall|m: int| 0 <= m < i - 1 implies s.drop_first()[m] != '@' by {
            assert(s.drop_first()[m] == s[m + 1]);
        }
        if i - 1 < s.drop_first().len() {
            assert(s.drop_first()[i - 1] == s[i]);
        }
        if i == s.len() {
            assert forall|m: int| 0 <= m < s.drop_first().len() implies s.drop_first()[m]
                != '@' by {
                assert(s.drop_first()[m] == s[m + 1]);
            }
        }
        lemma_first_at(s.drop_first(), i - 1);
    }
}

/// Splits one install request into name and range: the text before the
/// first `@` and the text after it, when the `@` is not the leading
/// character (scoped names start with one); otherwise the whole text
/// with the range `latest`.
pub fn parse_package_spec(s: &String) -> (r: (String, String))
    ensures
        ({
            let i = first_at(s@);
            if 0 < i < s@.len() {
                r.0@ == s@.subrange(0, i) && r.1@ == s@.subrange(i + 1, s@.len() as int)
            } else {
                r.0@ == s@ && r.1@ == "latest"@
            }
        }),
{
    let n = s.as_str().unicode_len();
    let mut i: usize = 0;
    while i < n
        invariant
            n == s@.len(),
            0 <= i <= n,
            forall|m: int| 0 <= m < i ==> s@[m] != '@',
        decreases n - i,
    {
        if s.as_str().get_char(i) == '@' {
            proof {
                lemma_first_at(s@, i as int);
            }
            if i > 0 {
                let name = s.as_str().substring_char(0, i).to_owned();
                let range = s.as_str().substring_char(i + 1, n).to_owned();
                return (name, range);
            } else {
                return (s.clone(), "latest".to_owned());
            }
        }
        i = i + 1;
    }
    proof {
        lemma_first_at(s@, n as int);
    }
    (s.clone(), "latest".to_owned())
}

/// The synthetic root descriptor for one install: name `root`, version
/// `0.0.0`, and the requests as its dependency map (as development
/// dependencies when `is_dev` holds); a later request for a name
/// overrides an earlier one.
pub fn root_package(requests: &Vec<(String, String)>, is_dev: bool) -> (r: Package)
    ensures
        r.wf(),
        r.name@ == "root"@,
        r.version@ == "0.0.0"@,
        ({
            let reqs: Seq<(String, String)> = if is_dev {
                r.dev_dependencies@
            } else {
                r.dependencies@
            };
            let other: Seq<(String, String)> = if is_dev {
                r.dependencies@
            } else {
                r.dev_dependencies@
            };
            &&& other =~= Seq::<(String, String)>::empty()
            &&& (forall|q: Seq<char>| #[trigger] has_key(reqs, q) <==> has_key(requests@, q))
            &&& (forall|q: Seq<char>|
                #[trigger] has_key(requests@, q) ==> (exists|m: int|
                    0 <= m < requests@.len() && (#[trigger] requests@[m]).0@ == q && value_of(
                        reqs,
                        q,
                    ) == requests@[m].1 && (forall|m2: int|
                        m < m2 < requests@.len() ==> (#[trigger] requests@[m2]).0@ != q)))
        }),
{
    let n = requests.len();
    let mut deps: Vec<(String, String)> = Vec::new();
    let mut i: usize = 0;
    while i < n
        invariant
            n == requests@.len(),
            0 <= i <= n,
            distinct_keys(deps@),
            forall|q: Seq<char>|
                #[trigger] has_key(deps@, q) <==> (exists|m: int|
                    0 <= m < i && (#[trigger] requests@[m]).0@ == q),
            forall|q: Seq<char>|
                #[trigger] has_key(deps@, q) ==> (exists|m: int|
                    0 <= m < i && (#[trigger] requests@[m]).0@ == q && value_of(deps@, q)
                        == requests@[m].1 && (forall|m2: int|
                        m < m2 < i ==> (#[trigger] requests@[m2]).0@ != q)),
        decreases n - i,
    {
        let ghost d0 = deps@;
        kv_set(&mut deps, requests[i].0.clone(), requests[i].1.clone());
        proof {
            let qi = requests@[i as int].0@;
            assert(value_of(deps@, qi) == requests@[i as int].1);
            assert forall|q: Seq<char>| #[trigger] has_key(deps@, q) implies (exists|m: int|
                0 <= m < i + 1 && (#[trigger] requests@[m]).0@ == q && value_of(deps@, q)
                    == requests@[m].1 && (forall|m2: int|
                    m < m2 < i + 1 ==> (#[trigger] requests@[m2]).0@ != q)) by {
                if q == qi {
                    assert(requests@[i as int].0@ == q && value_of(deps@, q)
                        == requests@[i as int].1);
                } else {
                    assert(has_key(d0, q));
                    let m = choose|m: int|
                        0 <= m < i && (#[trigger] requests@[m]).0@ == q && value_of(d0, q)
                            == requests@[m].1 && (forall|m2: int|
                            m < m2 < i ==> (#[trigger] requests@[m2]).0@ != q);
                    assert(value_of(deps@, q) == value_of(d0, q));
                    assert(requests@[m].0@ == q && value_of(deps@, q) == requests@[m].1);
                    assert forall|m2: int| m < m2 < i + 1 implies (
                    #[trigger] requests@[m2]).0@ != q by {
                        if m2 == i {
                            assert(requests@[i as int].0@ == qi);
                        }
                    }
                }
            }
            assert forall|q: Seq<char>| #[trigger] has_key(deps@, q) implies (exists|m: int|
                0 <= m < i + 1 && (#[trigger] requests@[m]).0@ == q) by {
                if q != qi {
                    assert(has_key(d0, q));
                }
            }
            assert forall|q: Seq<char>| (exists|m: int|
                0 <= m < i + 1 && (#[trigger] requests@[m]).0@ == q) implies #[trigger] has_key(
                deps@,
                q,
            ) by {
                let m = choose|m: int| 0 <= m < i + 1 && (#[trigger] requests@[m]).0@ == q;
                if m < i {
                    assert(has_key(d0, q));
                }
            }
        }
        i = i + 1;
    }
    proof {
        assert forall|q: Seq<char>| #[trigger] has_key(requests@, q) implies has_key(
            deps@,
            q,
        ) by {
            let m = choose|m: int|
                0 <= m < requests@.len() && (#[trigger] requests@[m]).0@ == q;
        }
    }
    if is_dev {
        Package {
            name: "root".to_owned(),
            version: "0.0.0".to_owned(),
            dependencies: Vec::new(),
            dev_dependencies: deps,
        }
    } else {
        Package {
            name: "root".to_owned(),
            version: "0.0.0".to_owned(),
            dependencies: deps,
            dev_dependencies: Vec::new(),
        }
    }
}

} // verus!
