//! The names that an expression in a scene may use: fields, methods and
//! functions from fixed lists, and objects of the scene that are not
//! invariants or loci.

use vstd::prelude::*;
use crate::text::push_str;
use crate::scene_utils::{SceneUtils, IdentifierExtraction};
use crate::scene_object::strings_view;
use crate::scene_kinds::{ObjectType, kind_name, same_text};

verus! {

/// The fields an expression may read.
pub open spec fn allowed_field(t: Seq<char>) -> bool {
    t == "x"@ || t == "y"@ || t == "o"@ || t == "n"@
}

/// The methods an expression may call.
pub open spec fn allowed_method(t: Seq<char>) -> bool {
    t == "abs"@ || t == "length"@ || t == "length_sqr"@ || t == "rotated90"@ || t == "contains"@
}

/// The functions an expression may call.
pub open spec fn allowed_function(t: Seq<char>) -> bool {
    t == "sqrt"@ || t == "d"@ || t == "d_sqr"@ || t == "cot"@ || t == "Point"@ || t == "Line"@ || t == "Vector"@
}

/// Kinds of objects that an expression may not name.
pub open spec fn barred_kind(k: ObjectType) -> bool {
    match k {
        ObjectType::TwoPointDistanceInvariant | ObjectType::PointToLineDistanceInvariant
        | ObjectType::TwoLineAngleInvariant | ObjectType::Invariant | ObjectType::Locus => true,
        _ => false,
    }
}

/// The message for each name of `ns` that `ok` does not accept, in order.
pub open spec fn rejected(ns: Seq<Seq<char>>, ok: spec_fn(Seq<char>) -> bool, before: Seq<char>, after: Seq<char>) -> Seq<Seq<char>>
    decreases ns.len(),
{
    if ns.len() == 0 {
        seq![]
    } else {
        rejected(ns.drop_last(), ok, before, after) + (if ok(ns.last()) { seq![] } else { seq![before + ns.last() + after] })
    }
}

/// The kind of the first object with the given name.
pub open spec fn kind_of(objs: Seq<(Seq<char>, ObjectType)>, name: Seq<char>) -> Option<ObjectType>
    decreases objs.len(),
{
    if objs.len() == 0 {
        None
    } else {
        match kind_of(objs.drop_last(), name) {
            Some(k) => Some(k),
            None => if objs.last().0 == name { Some(objs.last().1) } else { None },
        }
    }
}

/// The message for an object name that the expression may not use.
pub open spec fn object_message(objs: Seq<(Seq<char>, ObjectType)>, name: Seq<char>) -> Seq<Seq<char>> {
    match kind_of(objs, name) {
        None => seq!["Object '"@ + name + "' not found in scene"@],
        Some(k) => if barred_kind(k) {
            seq!["Object '"@ + name + "' has type '"@ + kind_name(k) + "' which is not allowed in expressions"@]
        } else {
            seq![]
        },
    }
}

/// The messages for the object names, in order.
pub open spec fn object_messages(objs: Seq<(Seq<char>, ObjectType)>, ns: Seq<Seq<char>>) -> Seq<Seq<char>>
    decreases ns.len(),
{
    if ns.len() == 0 {
        seq![]
    } else {
        object_messages(objs, ns.drop_last()) + object_message(objs, ns.last())
    }
}

/// The message that ends a rejected field.
pub open spec fn fields_tail() -> Seq<char> {
    "'. Allowed fields are: [\"x\", \"y\", \"o\", \"n\"]"@
}

/// The message that ends a rejected method.
pub open spec fn methods_tail() -> Seq<char> {
    "'. Allowed methods are: [\"abs\", \"length\", \"length_sqr\", \"rotated90\", \"contains\"]"@
}

/// The message that ends a rejected function.
pub open spec fn functions_tail() -> Seq<char> {
    "'. Allowed functions are: [\"sqrt\", \"d\", \"d_sqr\", \"cot\", \"Point\", \"Line\", \"Vector\"]"@
}

/// The views of a list of named kinds.
pub open spec fn named_kinds(v: Seq<(String, ObjectType)>) -> Seq<(Seq<char>, ObjectType)> {
    Seq::new(v.len(), |i: int| (v[i].0@, v[i].1))
}

/// Whether the field is allowed (see `allowed_field`).
fn field_ok(t: &String) -> (r: bool)
    ensures
        r == allowed_field(t@),
{
    let s = t.as_str();
    same_text(s, "x") || same_text(s, "y") || same_text(s, "o") || same_text(s, "n")
}

/// Whether the method is allowed (see `allowed_method`).
fn method_ok(t: &String) -> (r: bool)
    ensures
        r == allowed_method(t@),
{
    let s = t.as_str();
    same_text(s, "abs") || same_text(s, "length") || same_text(s, "length_sqr") || same_text(s, "rotated90")
        || same_text(s, "contains")
}

/// Whether the function is allowed (see `allowed_function`).
fn function_ok(t: &String) -> (r: bool)
    ensures
        r == allowed_function(t@),
{
    let s = t.as_str();
    same_text(s, "sqrt") || same_text(s, "d") || same_text(s, "d_sqr") || same_text(s, "cot") || same_text(s, "Point")
        || same_text(s, "Line") || same_text(s, "Vector")
}

/// Appends a message for each name that the check rejects.
fn push_rejected(
    out: &mut Vec<String>,
    ns: &Vec<String>,
    which: u8,
    Ghost(ok): Ghost<spec_fn(Seq<char>) -> bool>,
    before: &str,
    after: &str,
)
    requires
        which == 0 ==> ok == (|t: Seq<char>| allowed_field(t)),
        which == 1 ==> ok == (|t: Seq<char>| allowed_method(t)),
        which != 0 && which != 1 ==> ok == (|t: Seq<char>| allowed_function(t)),
    ensures
        strings_view(final(out)@) == strings_view(old(out)@) + rejected(strings_view(ns@), ok, before@, after@),
{
    let ghost nv = strings_view(ns@);
    let ghost start = strings_view(out@);
    let mut i: usize = 0;
    assert(nv.take(0) =~= Seq::<Seq<char>>::empty());
    assert(start + seq![] =~= start);
    while i < ns.len()
        invariant
            nv == strings_view(ns@),
            i <= nv.len(),
            which == 0 ==> ok == (|t: Seq<char>| allowed_field(t)),
            which == 1 ==> ok == (|t: Seq<char>| allowed_method(t)),
            which != 0 && which != 1 ==> ok == (|t: Seq<char>| allowed_function(t)),
            strings_view(out@) == start + rejected(nv.take(i as int), ok, before@, after@),
        decreases nv.len() - i,
    {
        let n = &ns[i];
        assert(nv[i as int] == n@);
        let good = if which == 0 {
            field_ok(n)
        } else if which == 1 {
            method_ok(n)
        } else {
            function_ok(n)
        };
        assert(good == ok(n@));
        let ghost before_out = strings_view(out@);
        if !good {
            let mut m = String::new();
            push_str(&mut m, before);
            push_str(&mut m, n.as_str());
            push_str(&mut m, after);
            out.push(m);
        }
        proof {
            assert(nv.take(i as int + 1).drop_last() =~= nv.take(i as int));
            assert(nv.take(i as int + 1).last() == n@);
            assert(strings_view(out@) =~= before_out + (if ok(n@) { seq![] } else { seq![before@ + n@ + after@] }));
        }
        i = i + 1;
    }
    assert(nv.take(i as int) =~= nv);
}

/// The kind of the first object with the given name (see `kind_of`).
fn find_kind(objs: &Vec<(String, ObjectType)>, name: &String) -> (r: Option<ObjectType>)
    ensures
        r == kind_of(named_kinds(objs@), name@),
{
    let ghost ov = named_kinds(objs@);
    let mut i: usize = 0;
    assert(ov.take(0) =~= Seq::<(Seq<char>, ObjectType)>::empty());
    while i < objs.len()
        invariant
            ov == named_kinds(objs@),
            i <= ov.len(),
            kind_of(ov.take(i as int), name@) is None,
        decreases ov.len() - i,
    {
        assert(ov.take(i as int + 1).drop_last() =~= ov.take(i as int));
        assert(ov[i as int] == (objs@[i as int].0@, objs@[i as int].1));
        if same_text(objs[i].0.as_str(), name.as_str()) {
            proof {
                lemma_kind_of_prefix(ov, name@, i as int + 1);
            }
            return Some(objs[i].1);
        }
        i = i + 1;
    }
    assert(ov.take(i as int) =~= ov);
    None
}

/// Once a prefix finds a kind, every longer prefix finds the same.
proof fn lemma_kind_of_prefix(objs: Seq<(Seq<char>, ObjectType)>, name: Seq<char>, n: int)
    requires
        0 <= n <= objs.len(),
        kind_of(objs.take(n), name) is Some,
    ensures
        kind_of(objs, name) == kind_of(objs.take(n), name),
    decreases objs.len() - n,
{
    if n < objs.len() {
        assert(objs.take(n + 1).drop_last() =~= objs.take(n));
        lemma_kind_of_prefix(objs, name, n + 1);
    } else {
        assert(objs.take(n) =~= objs);
    }
}

impl SceneUtils {
    /// The problems with the names of an expression: each field, method and
    /// function not in its list (see `allowed_field`, `allowed_method`,
    /// `allowed_function`), then each object not in the scene or of a kind
    /// that expressions may not name (see `object_message`); in that order.
    pub fn expression_errors(ids: &IdentifierExtraction, objects: &Vec<(String, ObjectType)>) -> (r: Vec<String>)
        ensures
            strings_view(r@) == rejected(
                strings_view(ids.field_names@),
                |t: Seq<char>| allowed_field(t),
                "Invalid field name: '"@,
                fields_tail(),
            ) + rejected(
                strings_view(ids.method_names@),
                |t: Seq<char>| allowed_method(t),
                "Invalid method name: '"@,
                methods_tail(),
            ) + rejected(
                strings_view(ids.function_names@),
                |t: Seq<char>| allowed_function(t),
                "Invalid function name: '"@,
                functions_tail(),
            ) + object_messages(named_kinds(objects@), strings_view(ids.object_names@)),
    {
        let mut out: Vec<String> = Vec::new();
        assert(strings_view(out@) =~= Seq::<Seq<char>>::empty());
        push_rejected(
            &mut out,
            &ids.field_names,
            0,
            Ghost(|t: Seq<char>| allowed_field(t)),
            "Invalid field name: '",
            "'. Allowed fields are: [\"x\", \"y\", \"o\", \"n\"]",
        );
        push_rejected(
            &mut out,
            &ids.method_names,
            1,
            Ghost(|t: Seq<char>| allowed_method(t)),
            "Invalid method name: '",
            "'. Allowed methods are: [\"abs\", \"length\", \"length_sqr\", \"rotated90\", \"contains\"]",
        );
        push_rejected(
            &mut out,
            &ids.function_names,
            2,
            Ghost(|t: Seq<char>| allowed_function(t)),
            "Invalid function name: '",
            "'. Allowed functions are: [\"sqrt\", \"d\", \"d_sqr\", \"cot\", \"Point\", \"Line\", \"Vector\"]",
        );
        let ghost head = strings_view(out@);
        let ghost ov = named_kinds(objects@);
        let ghost nv = strings_view(ids.object_names@);
        let mut i: usize = 0;
        assert(nv.take(0) =~= Seq::<Seq<char>>::empty());
        assert(head + seq![] =~= head);
        while i < ids.object_names.len()
            invariant
                ov == named_kinds(objects@),
                nv == strings_view(ids.object_names@),
                i <= nv.len(),
                strings_view(out@) == head + object_messages(ov, nv.take(i as int)),
            decreases nv.len() - i,
        {
            let name = &ids.object_names[i];
            assert(nv[i as int] == name@);
            let ghost before_out = strings_view(out@);
            match find_kind(objects, name) {
                None => {
                    let mut m = String::new();
                    push_str(&mut m, "Object '");
                    push_str(&mut m, name.as_str());
                    push_str(&mut m, "' not found in scene");
                    out.push(m);
                },
                Some(k) => {
                    let barred = match k {
                        ObjectType::TwoPointDistanceInvariant | ObjectType::PointToLineDistanceInvariant
                        | ObjectType::TwoLineAngleInvariant | ObjectType::Invariant | ObjectType::Locus => true,
                        _ => false,
                    };
                    if barred {
                        let mut m = String::new();
                        push_str(&mut m, "Object '");
                        push_str(&mut m, name.as_str());
                        push_str(&mut m, "' has type '");
                        let kn = k.to_string();
                        push_str(&mut m, kn.as_str());
                        push_str(&mut m, "' which is not allowed in expressions");
                        out.push(m);
                    }
                },
            }
            proof {
                assert(nv.take(i as int + 1).drop_last() =~= nv.take(i as int));
                assert(nv.take(i as int + 1).last() == name@);
                assert(strings_view(out@) =~= before_out + object_message(ov, name@));
            }
            i = i + 1;
        }
        assert(nv.take(i as int) =~= nv);
        out
    }
}

} // verus!
