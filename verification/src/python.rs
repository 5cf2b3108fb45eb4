//! The Python backend: renders the type model as Python class
//! declarations, with `list`, `dict`, `|None` and the scalar names of
//! the Python type system.  Enums are declared unsupported and are
//! rejected with a typed error.

use vstd::prelude::*;

use crate::errors::{
    ConstructKind, GenerateError, GenerateErrorView, TypeFormatError, TypeFormatErrorView,
};
use crate::language::{
    generate, items_all_ok, items_text, spec_item, struct_like_set, worklist_of, Language,
    TypeMapping,
};
use crate::model::{
    contains_string, distinct_names, item_name, item_refs, lemma_type_list_size_bound,
    override_for, type_list_size, type_size, AliasDef, EnumDef, FieldDef, ParsedData, SpecialType,
    StructDef, TypeItem, TypeRef,
};
use crate::topsort::{
    dependency_ordered, lemma_dependency_ordered_pairs, lemma_distinct_names_permutation,
    lemma_mutual_cycle_unsortable, stable_order, unresolvable,
};

verus! {

/// All information needed to generate Python type-code.
#[derive(Debug)]
pub struct Python {
    /// Conversions from source type names to Python type names.
    pub type_mappings: Vec<TypeMapping>,
}

impl Default for Python {
    /// A Python backend with an empty type-name mapping table.
    fn default() -> (r: Self)
        ensures
            r.type_mappings@ == Seq::<TypeMapping>::empty(),
    {
        let m: Vec<TypeMapping> = Vec::new();
        assert(m@ =~= Seq::<TypeMapping>::empty());
        Python { type_mappings: m }
    }
}

/// The target name the mapping table registers for `id`, if any: the
/// first entry whose source name matches.
pub open spec fn mapping_for(ms: Seq<TypeMapping>, id: Seq<char>) -> Option<Seq<char>>
    decreases ms,
{
    if ms.len() == 0 {
        None
    } else if ms[0].source@ == id {
        Some(ms[0].target@)
    } else {
        mapping_for(ms.drop_first(), id)
    }
}

/// The Python rendering of a type reference.
pub open spec fn py_type(ms: Seq<TypeMapping>, t: TypeRef) -> Seq<char>
    decreases t,
{
    match t {
        TypeRef::Named { id, args } => {
            let base = match mapping_for(ms, id@) {
                Some(m) => m,
                None => id@,
            };
            if args@.len() == 0 {
                base
            } else {
                base + "["@ + py_args(ms, args@) + "]"@
            }
        }
        TypeRef::Special(s) => py_special(ms, s),
    }
}

/// The Python rendering of each built-in special shape.
pub open spec fn py_special(ms: Seq<TypeMapping>, s: SpecialType) -> Seq<char>
    decreases s,
{
    match s {
        SpecialType::List(inner) => "list["@ + py_type(ms, *inner) + "]"@,
        SpecialType::FixedArray(inner, _) => "list["@ + py_type(ms, *inner) + "]"@,
        SpecialType::Slice(inner) => "list["@ + py_type(ms, *inner) + "]"@,
        SpecialType::Optional(inner) => py_type(ms, *inner) + "|None"@,
        SpecialType::Dict(k, v) => "dict["@ + py_type(ms, *k) + ", "@ + py_type(ms, *v) + "]"@,
        SpecialType::Unit => "None"@,
        SpecialType::Str => "str"@,
        SpecialType::Chr => "str"@,
        SpecialType::Bool => "bool"@,
        SpecialType::F32 => "float"@,
        SpecialType::F64 => "float"@,
        _ => "int"@,
    }
}

/// The comma-separated Python renderings of a generic-argument list.
pub open spec fn py_args(ms: Seq<TypeMapping>, ts: Seq<TypeRef>) -> Seq<char>
    decreases ts,
{
    if ts.len() == 0 {
        Seq::empty()
    } else if ts.len() == 1 {
        py_type(ms, ts[0])
    } else {
        py_args(ms, ts.drop_last()) + ", "@ + py_type(ms, ts.last())
    }
}

/// The first of two findings, in order.
pub open spec fn first_of(a: Option<Seq<char>>, b: Option<Seq<char>>) -> Option<Seq<char>> {
    if a is Some {
        a
    } else {
        b
    }
}

/// The first map key inside `t` that is a bare generic parameter of
/// `gens`, in rendering order, if any.  Such a key has no binding to a
/// concrete type at generation time, so the formatter refuses it.
pub open spec fn unbound_dict_key(t: TypeRef, gens: Seq<Seq<char>>) -> Option<Seq<char>>
    decreases t,
{
    match t {
        TypeRef::Named { id, args } => unbound_dict_key_list(args@, gens),
        TypeRef::Special(s) => match s {
            SpecialType::List(inner) => unbound_dict_key(*inner, gens),
            SpecialType::FixedArray(inner, _) => unbound_dict_key(*inner, gens),
            SpecialType::Slice(inner) => unbound_dict_key(*inner, gens),
            SpecialType::Optional(inner) => unbound_dict_key(*inner, gens),
            SpecialType::Dict(k, v) => match *k {
                TypeRef::Named { id, args } => if gens.contains(id@) {
                    Some(id@)
                } else {
                    first_of(unbound_dict_key(*k, gens), unbound_dict_key(*v, gens))
                },
                _ => first_of(unbound_dict_key(*k, gens), unbound_dict_key(*v, gens)),
            },
            _ => None,
        },
    }
}

/// The first unbound map key among a list of types, in order.
pub open spec fn unbound_dict_key_list(ts: Seq<TypeRef>, gens: Seq<Seq<char>>) -> Option<Seq<char>>
    decreases ts,
{
    if ts.len() == 0 {
        None
    } else {
        first_of(unbound_dict_key_list(ts.drop_last(), gens), unbound_dict_key(ts.last(), gens))
    }
}

/// A finding in one list element, with none before it, is the list's
/// finding.
proof fn lemma_unbound_list_dominates(ts: Seq<TypeRef>, gens: Seq<Seq<char>>, i: int)
    requires
        0 <= i < ts.len(),
        unbound_dict_key_list(ts.subrange(0, i), gens) is None,
        unbound_dict_key(ts[i], gens) is Some,
    ensures
        unbound_dict_key_list(ts, gens) == unbound_dict_key(ts[i], gens),
    decreases ts.len(),
{
    if i == ts.len() - 1 {
        assert(ts.drop_last() =~= ts.subrange(0, i));
    } else {
        assert(ts.drop_last().subrange(0, i) =~= ts.subrange(0, i));
        assert(ts.drop_last()[i] == ts[i]);
        lemma_unbound_list_dominates(ts.drop_last(), gens, i);
    }
}

/// With no generic parameters in scope, every map key is concrete.
proof fn lemma_no_unbound_without_generics(t: TypeRef)
    ensures
        unbound_dict_key(t, Seq::empty()) is None,
    decreases t,
{
    match t {
        TypeRef::Named { id, args } => {
            lemma_no_unbound_without_generics_list(args@);
        }
        TypeRef::Special(s) => match s {
            SpecialType::List(inner)
            | SpecialType::FixedArray(inner, _)
            | SpecialType::Slice(inner)
            | SpecialType::Optional(inner) => {
                lemma_no_unbound_without_generics(*inner);
            }
            SpecialType::Dict(k, v) => {
                lemma_no_unbound_without_generics(*k);
                lemma_no_unbound_without_generics(*v);
            }
            _ => (),
        },
    }
}

/// As [`lemma_no_unbound_without_generics`], over a list of types.
proof fn lemma_no_unbound_without_generics_list(ts: Seq<TypeRef>)
    ensures
        unbound_dict_key_list(ts, Seq::empty()) is None,
    decreases ts,
{
    if ts.len() > 0 {
        lemma_no_unbound_without_generics_list(ts.drop_last());
        lemma_no_unbound_without_generics(ts.last());
    }
}

/// `n` tab characters.
pub open spec fn tabs(n: nat) -> Seq<char>
    decreases n,
{
    if n == 0 {
        Seq::empty()
    } else {
        tabs((n - 1) as nat) + "\t"@
    }
}

/// One indented comment line.
pub open spec fn comment_line(indent: nat, c: Seq<char>) -> Seq<char> {
    tabs(indent) + "# "@ + c + "\n"@
}

/// A block of indented comment lines, in order.
pub open spec fn comment_block(indent: nat, cs: Seq<Seq<char>>) -> Seq<char>
    decreases cs,
{
    if cs.len() == 0 {
        Seq::empty()
    } else {
        comment_block(indent, cs.drop_last()) + comment_line(indent, cs.last())
    }
}

/// The unbound map key a field's rendering would hit, if any; a
/// literal override bypasses the formatter, so nothing is hit.
pub open spec fn field_unbound(f: FieldDef, gens: Seq<Seq<char>>) -> Option<Seq<char>> {
    match override_for(f.overrides@, "python"@) {
        Some(_) => None,
        None => match f.ty {
            TypeRef::Special(SpecialType::Optional(inner)) => unbound_dict_key(*inner, gens),
            _ => unbound_dict_key(f.ty, gens),
        },
    }
}

/// The first unbound map key among a struct's fields, in order.
pub open spec fn fields_unbound(fs: Seq<FieldDef>, gens: Seq<Seq<char>>) -> Option<Seq<char>>
    decreases fs,
{
    if fs.len() == 0 {
        None
    } else {
        first_of(fields_unbound(fs.drop_last(), gens), field_unbound(fs.last(), gens))
    }
}

/// A finding in one field, with none before it, is the struct's
/// finding.
proof fn lemma_fields_unbound_dominates(fs: Seq<FieldDef>, gens: Seq<Seq<char>>, i: int)
    requires
        0 <= i < fs.len(),
        fields_unbound(fs.subrange(0, i), gens) is None,
        field_unbound(fs[i], gens) is Some,
    ensures
        fields_unbound(fs, gens) == field_unbound(fs[i], gens),
    decreases fs.len(),
{
    if i == fs.len() - 1 {
        assert(fs.drop_last() =~= fs.subrange(0, i));
    } else {
        assert(fs.drop_last().subrange(0, i) =~= fs.subrange(0, i));
        assert(fs.drop_last()[i] == fs[i]);
        lemma_fields_unbound_dominates(fs.drop_last(), gens, i);
    }
}

/// The Python rendering of one field: its comments, a `@JsonProperty`
/// annotation exactly when the field is renamed, and the field line
/// with a single `|None` marker exactly when the field is optional.
pub open spec fn py_field(ms: Seq<TypeMapping>, f: FieldDef) -> Seq<char> {
    let type_txt = match override_for(f.overrides@, "python"@) {
        Some(o) => o,
        None => match f.ty {
            TypeRef::Special(SpecialType::Optional(inner)) => py_type(ms, *inner),
            _ => py_type(ms, f.ty),
        },
    };
    comment_block(1, f.comments.deep_view()) + (if f.id.renamed@ != f.id.original@ {
        "\t@JsonProperty(\""@ + f.id.renamed@ + "\")\n"@
    } else {
        Seq::empty()
    }) + "\t"@ + f.id.original@ + ": "@ + type_txt + (if f.ty.spec_is_optional() {
        "|None"@
    } else {
        Seq::empty()
    }) + "\n"@
}

/// The concatenated renderings of a struct's fields, in declared order.
pub open spec fn fields_text(ms: Seq<TypeMapping>, fs: Seq<FieldDef>) -> Seq<char>
    decreases fs,
{
    if fs.len() == 0 {
        Seq::empty()
    } else {
        fields_text(ms, fs.drop_last()) + py_field(ms, fs.last())
    }
}

/// The Python rendering of one struct: comments, a class line under the
/// exported name, the fields, and a blank separator line.
pub open spec fn py_struct(ms: Seq<TypeMapping>, s: StructDef) -> Seq<char> {
    comment_block(0, s.comments.deep_view()) + "class "@ + s.id.renamed@ + ":\n"@ + fields_text(
        ms,
        s.fields@,
    ) + "\n"@
}

/// The Python rendering of one type alias.
pub open spec fn py_alias(ms: Seq<TypeMapping>, a: AliasDef) -> Seq<char> {
    comment_block(0, a.comments.deep_view()) + a.id.original@ + " = "@ + py_type(ms, a.target)
        + "\n\n"@
}

/// Emit one comment line under `indent` tabs.
pub fn write_comment(indent: usize, comment: &str) -> (r: String)
    ensures
        r@ == comment_line(indent as nat, comment@),
{
    let mut out = String::new();
    let mut i: usize = 0;
    while i < indent
        invariant
            i <= indent,
            out@ == tabs(i as nat),
        decreases indent - i,
    {
        out.append("\t");
        i = i + 1;
    }
    out.append("# ");
    out.append(comment);
    out.append("\n");
    out
}

/// Emit a block of comment lines under `indent` tabs.
pub fn write_comments(indent: usize, comments: &Vec<String>) -> (r: String)
    ensures
        r@ == comment_block(indent as nat, comments.deep_view()),
{
    let mut out = String::new();
    let mut i: usize = 0;
    assert(out@ =~= comment_block(indent as nat, comments.deep_view().subrange(0, 0)));
    while i < comments.len()
        invariant
            i <= comments.len(),
            out@ == comment_block(indent as nat, comments.deep_view().subrange(0, i as int)),
        decreases comments.len() - i,
    {
        let line = write_comment(indent, comments[i].as_str());
        out.append(line.as_str());
        proof {
            let cs = comments.deep_view();
            let cur = cs.subrange(0, i as int + 1);
            assert(cur.drop_last() =~= cs.subrange(0, i as int));
            assert(cur.last() == cs[i as int]);
            assert(comment_block(indent as nat, cs.subrange(0, i as int)) + comment_line(
                indent as nat,
                cs[i as int],
            ) == comment_block(indent as nat, cur));
        }
        i = i + 1;
    }
    assert(comments.deep_view().subrange(0, comments.deep_view().len() as int)
        =~= comments.deep_view());
    out
}

/// Everything one Python generation run promises of its result: on
/// success the input had no enums and the text is exactly the framing
/// around the renderings of a dependency-ordered (and, under distinct
/// names, declaration-stable) permutation of the worklist; on failure
/// the error is a genuine cycle witness, an enum of the input named in
/// full, or the unbound map key of some struct of the input.
pub open spec fn generation_post(py: Python, data: ParsedData, r: Result<
    String,
    GenerateError,
>) -> bool {
    match r {
        Ok(text) => {
            &&& data.enums@.len() == 0
            &&& exists|sorted: Seq<TypeItem>, sl: Seq<Seq<char>>|
                {
                    &&& #[trigger] sorted.to_multiset() == worklist_of(data).to_multiset()
                    &&& dependency_ordered(sorted)
                    &&& crate::model::distinct_names(worklist_of(data)) ==> stable_order(
                        worklist_of(data),
                        sorted,
                    )
                    &&& struct_like_set(data.structs@, data.aliases@, sl)
                    &&& text@ == py.spec_begin_file() + #[trigger] items_text(py, sorted, sl)
                        + py.spec_end_file()
                }
        },
        Err(ge) => match ge@ {
            GenerateErrorView::UnresolvableCycle(ns) => unresolvable(worklist_of(data), ns),
            GenerateErrorView::UnsupportedConstruct { kind, name } => {
                &&& kind == ConstructKind::Enum
                &&& exists|j: int|
                    0 <= j < data.enums@.len() && (#[trigger] data.enums@[j]).id.original@ == name
            },
            GenerateErrorView::TypeFormat(_) => exists|j: int|
                0 <= j < data.structs@.len() && py.spec_struct(#[trigger] data.structs@[j])
                    == Err::<Seq<char>, GenerateErrorView>(ge@),
        },
    }
}

impl Python {
    /// The target name this backend's mapping table registers for `id`.
    fn lookup_mapping(&self, id: &String) -> (r: Option<&String>)
        ensures
            match r {
                Some(m) => mapping_for(self.type_mappings@, id@) == Some(m@),
                None => mapping_for(self.type_mappings@, id@) is None,
            },
    {
        let mut i: usize = 0;
        assert(self.type_mappings@.subrange(0, self.type_mappings@.len() as int)
            =~= self.type_mappings@);
        while i < self.type_mappings.len()
            invariant
                i <= self.type_mappings.len(),
                mapping_for(self.type_mappings@, id@) == mapping_for(
                    self.type_mappings@.subrange(i as int, self.type_mappings@.len() as int),
                    id@,
                ),
            decreases self.type_mappings.len() - i,
        {
            let entry = &self.type_mappings[i];
            proof {
                let rest = self.type_mappings@.subrange(i as int, self.type_mappings@.len() as int);
                assert(rest[0] == self.type_mappings@[i as int]);
                assert(rest.drop_first()
                    =~= self.type_mappings@.subrange(i as int + 1, self.type_mappings@.len() as int));
            }
            if entry.source == *id {
                return Some(&entry.target);
            }
            i = i + 1;
        }
        None
    }

    /// Render a type reference in Python syntax: the mapped or given
    /// name of a named reference with its generic arguments in
    /// brackets, or the Python form of a special shape.  The rendering
    /// is a function of the mapping table and the reference alone, so
    /// formatting the same reference twice yields identical text.
    #[verifier::loop_isolation(false)]
    pub fn format_type(&self, ty: &TypeRef, generic_types: &Vec<String>) -> (r: Result<
        String,
        TypeFormatError,
    >)
        ensures
            match r {
                Ok(t) => unbound_dict_key(*ty, generic_types.deep_view()) is None && t@ == py_type(
                    self.type_mappings@,
                    *ty,
                ),
                Err(e) => match unbound_dict_key(*ty, generic_types.deep_view()) {
                    Some(n) => e@ == (TypeFormatErrorView::UnboundGeneric { name: n }),
                    None => false,
                },
            },
        decreases type_size(*ty),
    {
        let ghost ms = self.type_mappings@;
        let ghost gens = generic_types.deep_view();
        match ty {
            TypeRef::Named { id, args } => {
                let mut out: String = match self.lookup_mapping(id) {
                    Some(m) => m.clone(),
                    None => id.clone(),
                };
                let ghost base = out@;
                if args.len() == 0 {
                    proof {
                        assert(args@.subrange(0, 0) =~= args@);
                    }
                    Ok(out)
                } else {
                    out.append("[");
                    let mut i: usize = 0;
                    while i < args.len()
                        invariant
                            i <= args.len(),
                            out@ == base + "["@ + py_args(ms, args@.subrange(0, i as int)),
                            unbound_dict_key_list(args@.subrange(0, i as int), gens) is None,
                        decreases args.len() - i,
                    {
                        if i > 0 {
                            out.append(", ");
                        }
                        proof {
                            lemma_type_list_size_bound(args@, i as int);
                            assert(type_size(*ty) == 1 + type_list_size(args@));
                        }
                        let piece = match self.format_type(&args[i], generic_types) {
                            Ok(p) => p,
                            Err(e) => {
                                proof {
                                    lemma_unbound_list_dominates(args@, gens, i as int);
                                }
                                return Err(e);
                            }
                        };
                        out.append(piece.as_str());
                        proof {
                            let cur = args@.subrange(0, i as int + 1);
                            assert(cur.drop_last() =~= args@.subrange(0, i as int));
                            assert(cur.last() == args@[i as int]);
                            if i == 0 {
                                assert(py_args(ms, cur) == py_type(ms, args@[0]));
                                assert(out@ =~= base + "["@ + py_args(ms, cur));
                            } else {
                                assert(py_args(ms, cur) == py_args(ms, args@.subrange(0, i as int))
                                    + ", "@ + py_type(ms, args@[i as int]));
                                assert(out@ =~= base + "["@ + py_args(ms, cur));
                            }
                        }
                        i = i + 1;
                    }
                    out.append("]");
                    proof {
                        assert(args@.subrange(0, args@.len() as int) =~= args@);
                        assert(out@ =~= base + "["@ + py_args(ms, args@) + "]"@);
                    }
                    Ok(out)
                }
            }
            TypeRef::Special(sp) => match sp {
                SpecialType::List(inner)
                | SpecialType::FixedArray(inner, _)
                | SpecialType::Slice(inner) => {
                    let mut out = String::new();
                    out.append("list[");
                    let piece = match self.format_type(inner, generic_types) {
                        Ok(p) => p,
                        Err(e) => {
                            return Err(e);
                        }
                    };
                    out.append(piece.as_str());
                    out.append("]");
                    assert(out@ =~= "list["@ + py_type(ms, **inner) + "]"@);
                    Ok(out)
                }
                SpecialType::Optional(inner) => {
                    let mut out = match self.format_type(inner, generic_types) {
                        Ok(p) => p,
                        Err(e) => {
                            return Err(e);
                        }
                    };
                    out.append("|None");
                    Ok(out)
                }
                SpecialType::Dict(k, v) => {
                    match &**k {
                        TypeRef::Named { id, args: _ } => {
                            if contains_string(generic_types, id) {
                                return Err(TypeFormatError::UnboundGeneric { name: id.clone() });
                            }
                        }
                        TypeRef::Special(_) => (),
                    }
                    let mut out = String::new();
                    out.append("dict[");
                    let kp = match self.format_type(k, generic_types) {
                        Ok(p) => p,
                        Err(e) => {
                            return Err(e);
                        }
                    };
                    out.append(kp.as_str());
                    out.append(", ");
                    let vp = match self.format_type(v, generic_types) {
                        Ok(p) => p,
                        Err(e) => {
                            return Err(e);
                        }
                    };
                    out.append(vp.as_str());
                    out.append("]");
                    assert(out@ =~= "dict["@ + py_type(ms, **k) + ", "@ + py_type(ms, **v) + "]"@);
                    Ok(out)
                }
                SpecialType::Unit => {
                    let mut out = String::new();
                    out.append("None");
                    Ok(out)
                }
                SpecialType::Str => {
                    let mut out = String::new();
                    out.append("str");
                    Ok(out)
                }
                SpecialType::Chr => {
                    let mut out = String::new();
                    out.append("str");
                    Ok(out)
                }
                SpecialType::Bool => {
                    let mut out = String::new();
                    out.append("bool");
                    Ok(out)
                }
                SpecialType::F32 => {
                    let mut out = String::new();
                    out.append("float");
                    Ok(out)
                }
                SpecialType::F64 => {
                    let mut out = String::new();
                    out.append("float");
                    Ok(out)
                }
                _ => {
                    let mut out = String::new();
                    out.append("int");
                    Ok(out)
                }
            },
        }
    }

    /// Emit one field: comments, a rename annotation when the exported
    /// name differs from the original, and the typed field line.  A
    /// literal override registered for Python replaces the formatted
    /// type unconditionally; the nullability marker is appended exactly
    /// when the field's type is optional, never twice.
    pub fn write_field(&self, field: &FieldDef, generic_types: &Vec<String>) -> (r: Result<
        String,
        TypeFormatError,
    >)
        ensures
            match r {
                Ok(t) => field_unbound(*field, generic_types.deep_view()) is None && t@
                    == py_field(self.type_mappings@, *field),
                Err(e) => match field_unbound(*field, generic_types.deep_view()) {
                    Some(n) => e@ == (TypeFormatErrorView::UnboundGeneric { name: n }),
                    None => false,
                },
            },
    {
        let ghost ms = self.type_mappings@;
        let mut out = write_comments(1, &field.comments);
        let lang = self.language();
        let rendered: String = match field.type_override(&lang) {
            Some(o) => o.clone(),
            None => match &field.ty {
                TypeRef::Special(SpecialType::Optional(inner)) => {
                    match self.format_type(inner, generic_types) {
                        Ok(t) => t,
                        Err(e) => {
                            return Err(e);
                        }
                    }
                }
                _ => match self.format_type(&field.ty, generic_types) {
                    Ok(t) => t,
                    Err(e) => {
                        return Err(e);
                    }
                },
            },
        };
        if !(field.id.renamed == field.id.original) {
            out.append("\t@JsonProperty(\"");
            out.append(field.id.renamed.as_str());
            out.append("\")\n");
        }
        out.append("\t");
        out.append(field.id.original.as_str());
        out.append(": ");
        out.append(rendered.as_str());
        if field.ty.is_optional() {
            out.append("|None");
        }
        out.append("\n");
        proof {
            assert(out@ =~= py_field(ms, *field));
        }
        Ok(out)
    }

    /// Walk the snapshot in dependency order and emit every item:
    /// aliases, structs and enums are collected into one worklist,
    /// sorted so that every referenced type is declared first, and
    /// rendered in that order between the file framing.  A true
    /// reference cycle or an enum aborts the run with the typed error
    /// that names the offending identities.
    pub fn generate_types(&self, data: ParsedData) -> (r: Result<String, GenerateError>)
        ensures
            generation_post(*self, data, r),
    {
        let ghost wl = worklist_of(data);
        let ghost snap = data;
        let r = generate(self, data);
        proof {
            broadcast use vstd::seq_lib::group_to_multiset_ensures;

            let na = snap.aliases@.len() as int;
            let nst = snap.structs@.len() as int;
            match &r {
                Ok(text) => {
                    let (sorted, sl): (Seq<TypeItem>, Seq<Seq<char>>) = choose|
                        sorted: Seq<TypeItem>,
                        sl: Seq<Seq<char>>,
                    |
                        {
                            &&& #[trigger] sorted.to_multiset() == wl.to_multiset()
                            &&& dependency_ordered(sorted)
                            &&& crate::model::distinct_names(wl) ==> stable_order(wl, sorted)
                            &&& struct_like_set(snap.structs@, snap.aliases@, sl)
                            &&& items_all_ok(*self, sorted, sl)
                            &&& text@ == self.spec_begin_file() + #[trigger] items_text(
                                *self,
                                sorted,
                                sl,
                            ) + self.spec_end_file()
                        };
                    if snap.enums@.len() > 0 {
                        let e0 = snap.enums@[0];
                        assert(wl[na + nst] == TypeItem::Enum(e0));
                        assert(wl.contains(TypeItem::Enum(e0)));
                        assert(sorted.to_multiset().count(TypeItem::Enum(e0)) > 0);
                        assert(sorted.contains(TypeItem::Enum(e0)));
                        let j = choose|j: int|
                            0 <= j < sorted.len() && sorted[j] == TypeItem::Enum(e0);
                        assert(spec_item(*self, sorted[j], sl) is Ok);
                        assert(false);
                    }
                }
                Err(ge) => {
                    if !(ge@ matches GenerateErrorView::UnresolvableCycle(ns) && unresolvable(
                        wl,
                        ns,
                    )) {
                        let (sorted, k, sl): (Seq<TypeItem>, int, Seq<Seq<char>>) = choose|
                            sorted: Seq<TypeItem>,
                            k: int,
                            sl: Seq<Seq<char>>,
                        |
                            {
                                &&& #[trigger] sorted.to_multiset() == wl.to_multiset()
                                &&& dependency_ordered(sorted)
                                &&& 0 <= k < sorted.len()
                                &&& struct_like_set(snap.structs@, snap.aliases@, sl)
                                &&& #[trigger] items_all_ok(*self, sorted.subrange(0, k), sl)
                                &&& spec_item(*self, sorted[k], sl) == Err::<
                                    Seq<char>,
                                    GenerateErrorView,
                                >(ge@)
                            };
                        match sorted[k] {
                            TypeItem::Struct(st) => {
                                assert(self.spec_struct(st) == Err::<
                                    Seq<char>,
                                    GenerateErrorView,
                                >(ge@));
                                assert(sorted.contains(TypeItem::Struct(st)));
                                assert(wl.to_multiset().count(TypeItem::Struct(st)) > 0);
                                assert(wl.contains(TypeItem::Struct(st)));
                                let w = choose|w: int|
                                    0 <= w < wl.len() && wl[w] == TypeItem::Struct(st);
                                if w < na {
                                    assert(wl[w] == TypeItem::Alias(snap.aliases@[w]));
                                    assert(false);
                                } else if w < na + nst {
                                    assert(wl[w] == TypeItem::Struct(snap.structs@[w - na]));
                                    assert(snap.structs@[w - na] == st);
                                } else {
                                    assert(wl[w] == TypeItem::Enum(snap.enums@[w - na - nst]));
                                    assert(false);
                                }
                            }
                            TypeItem::Alias(_) => {
                                assert(false);
                            }
                            TypeItem::Enum(e) => {
                                assert(ge@ == GenerateErrorView::UnsupportedConstruct {
                                    kind: ConstructKind::Enum,
                                    name: e.id.original@,
                                });
                                assert(sorted.contains(TypeItem::Enum(e)));
                                assert(wl.to_multiset().count(TypeItem::Enum(e)) > 0);
                                assert(wl.contains(TypeItem::Enum(e)));
                                let w = choose|w: int|
                                    0 <= w < wl.len() && wl[w] == TypeItem::Enum(e);
                                if w < na {
                                    assert(wl[w] == TypeItem::Alias(snap.aliases@[w]));
                                    assert(false);
                                } else if w < na + nst {
                                    assert(wl[w] == TypeItem::Struct(snap.structs@[w - na]));
                                    assert(false);
                                } else {
                                    assert(wl[w] == TypeItem::Enum(snap.enums@[w - na - nst]));
                                    assert(snap.enums@[w - na - nst] == e);
                                }
                            }
                        }
                    }
                }
            }
        }
        r
    }
}

impl Language for Python {
    open spec fn spec_language(&self) -> Seq<char> {
        "python"@
    }

    open spec fn spec_begin_file(&self) -> Seq<char> {
        "\n"@
    }

    open spec fn spec_end_file(&self) -> Seq<char> {
        Seq::empty()
    }

    open spec fn spec_type_map(&self) -> Seq<TypeMapping> {
        self.type_mappings@
    }

    open spec fn spec_struct(&self, s: StructDef) -> Result<Seq<char>, GenerateErrorView> {
        match fields_unbound(s.fields@, s.generic_types.deep_view()) {
            None => Ok(py_struct(self.type_mappings@, s)),
            Some(n) => Err(
                GenerateErrorView::TypeFormat(TypeFormatErrorView::UnboundGeneric { name: n }),
            ),
        }
    }

    open spec fn spec_enum(&self, e: EnumDef, struct_like: Seq<Seq<char>>) -> Result<
        Seq<char>,
        GenerateErrorView,
    > {
        Err(GenerateErrorView::UnsupportedConstruct {
            kind: ConstructKind::Enum,
            name: e.id.original@,
        })
    }

    open spec fn spec_alias(&self, a: AliasDef) -> Result<Seq<char>, GenerateErrorView> {
        Ok(py_alias(self.type_mappings@, a))
    }

    open spec fn spec_special(&self, s: SpecialType, generics: Seq<Seq<char>>) -> Result<
        Seq<char>,
        TypeFormatErrorView,
    > {
        match unbound_dict_key(TypeRef::Special(s), generics) {
            None => Ok(py_special(self.type_mappings@, s)),
            Some(n) => Err(TypeFormatErrorView::UnboundGeneric { name: n }),
        }
    }

    fn language(&self) -> (r: String) {
        String::from_str("python")
    }

    fn begin_file(&self) -> (r: String) {
        String::from_str("\n")
    }

    fn end_file(&self) -> (r: String) {
        String::new()
    }

    fn type_map(&self) -> (r: &Vec<TypeMapping>) {
        &self.type_mappings
    }

    fn write_struct(&self, rs: &StructDef) -> (r: Result<String, GenerateError>) {
        let ghost ms = self.type_mappings@;
        let mut out = write_comments(0, &rs.comments);
        out.append("class ");
        out.append(rs.id.renamed.as_str());
        out.append(":\n");
        let ghost head = out@;
        let ghost gens = rs.generic_types.deep_view();
        let mut i: usize = 0;
        assert(fields_text(ms, rs.fields@.subrange(0, 0)) =~= Seq::<char>::empty());
        assert(rs.fields@.subrange(0, 0) =~= Seq::<FieldDef>::empty());
        while i < rs.fields.len()
            invariant
                i <= rs.fields.len(),
                out@ == head + fields_text(ms, rs.fields@.subrange(0, i as int)),
                fields_unbound(rs.fields@.subrange(0, i as int), gens) is None,
                gens == rs.generic_types.deep_view(),
                head == comment_block(0, rs.comments.deep_view()) + "class "@ + rs.id.renamed@
                    + ":\n"@,
                ms == self.type_mappings@,
            decreases rs.fields.len() - i,
        {
            let line = match self.write_field(&rs.fields[i], &rs.generic_types) {
                Ok(t) => t,
                Err(fe) => {
                    proof {
                        lemma_fields_unbound_dominates(rs.fields@, gens, i as int);
                    }
                    return Err(GenerateError::TypeFormat(fe));
                }
            };
            out.append(line.as_str());
            proof {
                let cur = rs.fields@.subrange(0, i as int + 1);
                assert(cur.drop_last() =~= rs.fields@.subrange(0, i as int));
                assert(cur.last() == rs.fields@[i as int]);
                assert(out@ =~= head + fields_text(ms, cur));
            }
            i = i + 1;
        }
        out.append("\n");
        proof {
            assert(rs.fields@.subrange(0, rs.fields@.len() as int) =~= rs.fields@);
            assert(out@ =~= py_struct(ms, *rs));
        }
        Ok(out)
    }

    fn write_enum(&self, e: &EnumDef, struct_like: &Vec<String>) -> (r: Result<
        String,
        GenerateError,
    >) {
        Err(GenerateError::UnsupportedConstruct {
            kind: ConstructKind::Enum,
            name: e.id.original.clone(),
        })
    }

    fn format_special_type(&self, special: &SpecialType, generic_types: &Vec<String>) -> (r:
        Result<String, TypeFormatError>) {
        let ghost ms = self.type_mappings@;
        match special {
            SpecialType::List(inner)
            | SpecialType::FixedArray(inner, _)
            | SpecialType::Slice(inner) => {
                let mut out = String::new();
                out.append("list[");
                let piece = match self.format_type(inner, generic_types) {
                    Ok(p) => p,
                    Err(e) => {
                        return Err(e);
                    }
                };
                out.append(piece.as_str());
                out.append("]");
                assert(out@ =~= "list["@ + py_type(ms, **inner) + "]"@);
                Ok(out)
            }
            SpecialType::Optional(inner) => {
                let mut out = match self.format_type(inner, generic_types) {
                    Ok(p) => p,
                    Err(e) => {
                        return Err(e);
                    }
                };
                out.append("|None");
                Ok(out)
            }
            SpecialType::Dict(k, v) => {
                match &**k {
                    TypeRef::Named { id, args: _ } => {
                        if contains_string(generic_types, id) {
                            return Err(TypeFormatError::UnboundGeneric { name: id.clone() });
                        }
                    }
                    TypeRef::Special(_) => (),
                }
                let mut out = String::new();
                out.append("dict[");
                let kp = match self.format_type(k, generic_types) {
                    Ok(p) => p,
                    Err(e) => {
                        return Err(e);
                    }
                };
                out.append(kp.as_str());
                out.append(", ");
                let vp = match self.format_type(v, generic_types) {
                    Ok(p) => p,
                    Err(e) => {
                        return Err(e);
                    }
                };
                out.append(vp.as_str());
                out.append("]");
                assert(out@ =~= "dict["@ + py_type(ms, **k) + ", "@ + py_type(ms, **v) + "]"@);
                Ok(out)
            }
            SpecialType::Unit => {
                let mut out = String::new();
                out.append("None");
                Ok(out)
            }
            SpecialType::Str => {
                let mut out = String::new();
                out.append("str");
                Ok(out)
            }
            SpecialType::Chr => {
                let mut out = String::new();
                out.append("str");
                Ok(out)
            }
            SpecialType::Bool => {
                let mut out = String::new();
                out.append("bool");
                Ok(out)
            }
            SpecialType::F32 => {
                let mut out = String::new();
                out.append("float");
                Ok(out)
            }
            SpecialType::F64 => {
                let mut out = String::new();
                out.append("float");
                Ok(out)
            }
            _ => {
                let mut out = String::new();
                out.append("int");
                Ok(out)
            }
        }
    }

    fn write_type_alias(&self, ty: &AliasDef) -> (r: Result<String, GenerateError>) {
        let ghost ms = self.type_mappings@;
        let mut out = write_comments(0, &ty.comments);
        out.append(ty.id.original.as_str());
        out.append(" = ");
        let none: Vec<String> = Vec::new();
        assert(none.deep_view() =~= Seq::<Seq<char>>::empty());
        let body = match self.format_type(&ty.target, &none) {
            Ok(t) => t,
            Err(fe) => {
                proof {
                    lemma_no_unbound_without_generics(ty.target);
                }
                return Err(GenerateError::TypeFormat(fe));
            }
        };
        out.append(body.as_str());
        out.append("\n\n");
        proof {
            assert(out@ =~= py_alias(ms, *ty));
        }
        Ok(out)
    }
}


/// Success is owed: a run over a snapshot whose worklist admits no
/// unresolvable name set, that declares no enum, and whose structs hit
/// no unbound map key, returns the generated text.
pub proof fn lemma_generation_success_owed(
    py: Python,
    data: ParsedData,
    r: Result<String, GenerateError>,
)
    requires
        generation_post(py, data, r),
        forall|ns: Seq<Seq<char>>| !(#[trigger] unresolvable(worklist_of(data), ns)),
        data.enums@.len() == 0,
        forall|j: int|
            0 <= j < data.structs@.len() ==> fields_unbound(
                (#[trigger] data.structs@[j]).fields@,
                data.structs@[j].generic_types.deep_view(),
            ) is None,
    ensures
        r is Ok,
{
    match r {
        Ok(_) => (),
        Err(ge) => {
            match ge@ {
                GenerateErrorView::UnresolvableCycle(ns) => {
                    assert(!unresolvable(worklist_of(data), ns));
                }
                GenerateErrorView::UnsupportedConstruct { kind, name } => {
                    assert(data.enums@.len() > 0);
                }
                GenerateErrorView::TypeFormat(_) => {
                    let j = choose|j: int|
                        0 <= j < data.structs@.len() && py.spec_struct(
                            #[trigger] data.structs@[j],
                        ) == Err::<Seq<char>, GenerateErrorView>(ge@);
                    assert(fields_unbound(
                        data.structs@[j].fields@,
                        data.structs@[j].generic_types.deep_view(),
                    ) is Some);
                }
            }
        }
    }
}

/// Ordering invariant at the generator: under distinct names, a
/// successful run's text is the rendering of an emission order in which
/// every item referenced by another item stands strictly earlier.
pub proof fn lemma_generation_ordered_pairs(py: Python, data: ParsedData, text: String)
    requires
        generation_post(py, data, Ok(text)),
        distinct_names(worklist_of(data)),
    ensures
        exists|sorted: Seq<TypeItem>, sl: Seq<Seq<char>>|
            {
                &&& #[trigger] sorted.to_multiset() == worklist_of(data).to_multiset()
                &&& struct_like_set(data.structs@, data.aliases@, sl)
                &&& text@ == py.spec_begin_file() + #[trigger] items_text(py, sorted, sl)
                    + py.spec_end_file()
                &&& forall|iy: int, jx: int|
                    0 <= iy < sorted.len() && 0 <= jx < sorted.len() && item_refs(
                        #[trigger] sorted[jx],
                    ).contains(item_name(#[trigger] sorted[iy])) && item_name(sorted[iy])
                        != item_name(sorted[jx]) ==> iy < jx
            },
{
    let wl = worklist_of(data);
    let (sorted, sl): (Seq<TypeItem>, Seq<Seq<char>>) = choose|
        sorted: Seq<TypeItem>,
        sl: Seq<Seq<char>>,
    |
        {
            &&& #[trigger] sorted.to_multiset() == wl.to_multiset()
            &&& dependency_ordered(sorted)
            &&& distinct_names(wl) ==> stable_order(wl, sorted)
            &&& struct_like_set(data.structs@, data.aliases@, sl)
            &&& text@ == py.spec_begin_file() + #[trigger] items_text(py, sorted, sl)
                + py.spec_end_file()
        };
    lemma_distinct_names_permutation(wl, sorted);
    assert forall|iy: int, jx: int|
        0 <= iy < sorted.len() && 0 <= jx < sorted.len() && item_refs(
            #[trigger] sorted[jx],
        ).contains(item_name(#[trigger] sorted[iy])) && item_name(sorted[iy]) != item_name(
            sorted[jx],
        ) implies iy < jx by {
        lemma_dependency_ordered_pairs(sorted, iy, jx);
    }
}

/// Cycle detection at the generator: two structs that reference each
/// other by name can only end a run in the typed cycle error, never in
/// a silently chosen order, whatever else the snapshot holds besides
/// enums and unbound keys.
pub proof fn lemma_generation_cycle_forced(
    py: Python,
    data: ParsedData,
    r: Result<String, GenerateError>,
    i: int,
    j: int,
)
    requires
        generation_post(py, data, r),
        distinct_names(worklist_of(data)),
        data.enums@.len() == 0,
        forall|t: int|
            0 <= t < data.structs@.len() ==> fields_unbound(
                (#[trigger] data.structs@[t]).fields@,
                data.structs@[t].generic_types.deep_view(),
            ) is None,
        0 <= i < data.structs@.len(),
        0 <= j < data.structs@.len(),
        i != j,
        item_refs(TypeItem::Struct(data.structs@[i])).contains(
            item_name(TypeItem::Struct(data.structs@[j])),
        ),
        item_refs(TypeItem::Struct(data.structs@[j])).contains(
            item_name(TypeItem::Struct(data.structs@[i])),
        ),
    ensures
        match r {
            Err(ge) => ge@ matches GenerateErrorView::UnresolvableCycle(ns) && unresolvable(
                worklist_of(data),
                ns,
            ),
            Ok(_) => false,
        },
{
    broadcast use vstd::seq_lib::group_to_multiset_ensures;

    let wl = worklist_of(data);
    let na = data.aliases@.len() as int;
    let si = TypeItem::Struct(data.structs@[i]);
    let sj = TypeItem::Struct(data.structs@[j]);
    assert(wl[na + i] == si);
    assert(wl[na + j] == sj);
    assert(item_name(si) != item_name(sj));
    match r {
        Ok(text) => {
            let (sorted, sl): (Seq<TypeItem>, Seq<Seq<char>>) = choose|
                sorted: Seq<TypeItem>,
                sl: Seq<Seq<char>>,
            |
                {
                    &&& #[trigger] sorted.to_multiset() == wl.to_multiset()
                    &&& dependency_ordered(sorted)
                    &&& distinct_names(wl) ==> stable_order(wl, sorted)
                    &&& struct_like_set(data.structs@, data.aliases@, sl)
                    &&& text@ == py.spec_begin_file() + #[trigger] items_text(py, sorted, sl)
                        + py.spec_end_file()
                };
            lemma_distinct_names_permutation(wl, sorted);
            assert(wl.contains(si));
            assert(sorted.to_multiset().count(si) > 0);
            assert(sorted.contains(si));
            assert(wl.contains(sj));
            assert(sorted.to_multiset().count(sj) > 0);
            assert(sorted.contains(sj));
            let pi = choose|pi: int| 0 <= pi < sorted.len() && sorted[pi] == si;
            let pj = choose|pj: int| 0 <= pj < sorted.len() && sorted[pj] == sj;
            lemma_mutual_cycle_unsortable(sorted, pi, pj);
            assert(false);
        }
        Err(ge) => {
            match ge@ {
                GenerateErrorView::UnresolvableCycle(ns) => (),
                GenerateErrorView::UnsupportedConstruct { kind, name } => {
                    assert(data.enums@.len() > 0);
                    assert(false);
                }
                GenerateErrorView::TypeFormat(_) => {
                    let t = choose|t: int|
                        0 <= t < data.structs@.len() && py.spec_struct(
                            #[trigger] data.structs@[t],
                        ) == Err::<Seq<char>, GenerateErrorView>(ge@);
                    assert(fields_unbound(
                        data.structs@[t].fields@,
                        data.structs@[t].generic_types.deep_view(),
                    ) is Some);
                    assert(false);
                }
            }
        }
    }
}

/// Formatting is deterministic: any two renderings of the same type
/// reference under the same mapping table are byte-identical.
pub proof fn lemma_format_idempotent(ms: Seq<TypeMapping>, t: TypeRef, r1: Seq<char>, r2: Seq<char>)
    requires
        r1 == py_type(ms, t),
        r2 == py_type(ms, t),
    ensures
        r1 == r2,
{
}

} // verus!
