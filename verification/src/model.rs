//! The type model: immutable value types describing parsed structs,
//! enums, type aliases and fields, together with the spec-level view of
//! the named references each item makes.

use vstd::prelude::*;

verus! {

/// The identity of a declared item or field: the name it bore in the
/// source language and the name it is exported under.
#[derive(Debug)]
pub struct Id {
    pub original: String,
    pub renamed: String,
}

/// The closed set of built-in shapes with universal cross-language
/// semantics: containers, optionals, maps, scalars and the unit type.
/// Every backend must render each of these cases.
#[derive(Debug)]
pub enum SpecialType {
    /// Growable homogeneous sequence of the argument type.
    List(Box<TypeRef>),
    /// Fixed-length homogeneous sequence of the argument type.
    FixedArray(Box<TypeRef>, usize),
    /// Borrowed homogeneous sequence of the argument type.
    Slice(Box<TypeRef>),
    /// Union of the argument type with absence.
    Optional(Box<TypeRef>),
    /// Mapping from a key type to a value type.
    Dict(Box<TypeRef>, Box<TypeRef>),
    /// The canonical "no value" type.
    Unit,
    /// A text string.
    Str,
    /// A single character; collapses to the string type in targets
    /// without a one-codepoint scalar type.
    Chr,
    Bool,
    I8,
    I16,
    I32,
    /// A signed integer restricted to 54 bits for targets whose numbers
    /// are IEEE doubles.
    I54,
    I64,
    ISize,
    U8,
    U16,
    U32,
    /// An unsigned integer restricted to 53 bits, as `I54`.
    U53,
    U64,
    USize,
    F32,
    F64,
}

/// A reference to a type: either a named reference to a declared item,
/// carrying generic arguments, or one of the built-in special shapes.
#[derive(Debug)]
pub enum TypeRef {
    Named { id: String, args: Vec<TypeRef> },
    Special(SpecialType),
}

/// A literal replacement for a field's rendered type in one target
/// language; it bypasses the formatter entirely.
#[derive(Debug)]
pub struct TypeOverride {
    pub language: String,
    pub value: String,
}

/// One field of a struct.
#[derive(Debug)]
pub struct FieldDef {
    pub id: Id,
    pub ty: TypeRef,
    pub overrides: Vec<TypeOverride>,
    pub comments: Vec<String>,
}

/// A struct definition: identity, generic parameter names, ordered
/// fields and doc comments.
#[derive(Debug)]
pub struct StructDef {
    pub id: Id,
    pub generic_types: Vec<String>,
    pub fields: Vec<FieldDef>,
    pub comments: Vec<String>,
}

/// One variant of an enum, with an optional payload shape.
#[derive(Debug)]
pub struct VariantDef {
    pub id: Id,
    pub payload: Option<TypeRef>,
}

/// An enum definition.  Support is backend-declared, not assumed
/// universal: a backend without sum types must reject it.
#[derive(Debug)]
pub struct EnumDef {
    pub id: Id,
    pub variants: Vec<VariantDef>,
    pub comments: Vec<String>,
}

/// A type alias: a new name bound to an already-resolved type.
#[derive(Debug)]
pub struct AliasDef {
    pub id: Id,
    pub target: TypeRef,
    pub comments: Vec<String>,
}

/// Any one of the three kinds of declared item, used uniformly by the
/// dependency sorter.
#[derive(Debug)]
pub enum TypeItem {
    Struct(StructDef),
    Enum(EnumDef),
    Alias(AliasDef),
}

/// The immutable snapshot handed to the core by the upstream parser.
#[derive(Debug)]
pub struct ParsedData {
    pub structs: Vec<StructDef>,
    pub enums: Vec<EnumDef>,
    pub aliases: Vec<AliasDef>,
}

/// The number of type-reference nodes inside a type; the termination
/// measure for recursion over nested shapes.
pub open spec fn type_size(t: TypeRef) -> nat
    decreases t,
{
    match t {
        TypeRef::Named { id, args } => 1 + type_list_size(args@),
        TypeRef::Special(s) => match s {
            SpecialType::List(inner) => 1 + type_size(*inner),
            SpecialType::FixedArray(inner, _) => 1 + type_size(*inner),
            SpecialType::Slice(inner) => 1 + type_size(*inner),
            SpecialType::Optional(inner) => 1 + type_size(*inner),
            SpecialType::Dict(k, v) => 1 + type_size(*k) + type_size(*v),
            _ => 1,
        },
    }
}

/// The summed size of a sequence of types.
pub open spec fn type_list_size(ts: Seq<TypeRef>) -> nat
    decreases ts,
{
    if ts.len() == 0 {
        0
    } else {
        type_size(ts[0]) + type_list_size(ts.drop_first())
    }
}

/// Each element of a type list is no larger than the whole list.
pub proof fn lemma_type_list_size_bound(ts: Seq<TypeRef>, i: int)
    requires
        0 <= i < ts.len(),
    ensures
        type_size(ts[i]) <= type_list_size(ts),
    decreases ts.len(),
{
    if i > 0 {
        lemma_type_list_size_bound(ts.drop_first(), i - 1);
        assert(ts.drop_first()[i - 1] == ts[i]);
    }
}

/// The names of every named reference inside a type, innermost
/// references included, in left-to-right order.
pub open spec fn type_ref_names(t: TypeRef) -> Seq<Seq<char>>
    decreases t,
{
    match t {
        TypeRef::Named { id, args } => seq![id@] + type_list_names(args@),
        TypeRef::Special(s) => match s {
            SpecialType::List(inner) => type_ref_names(*inner),
            SpecialType::FixedArray(inner, _) => type_ref_names(*inner),
            SpecialType::Slice(inner) => type_ref_names(*inner),
            SpecialType::Optional(inner) => type_ref_names(*inner),
            SpecialType::Dict(k, v) => type_ref_names(*k) + type_ref_names(*v),
            _ => Seq::empty(),
        },
    }
}

/// The named references of a sequence of types, concatenated in order.
pub open spec fn type_list_names(ts: Seq<TypeRef>) -> Seq<Seq<char>>
    decreases ts,
{
    if ts.len() == 0 {
        Seq::empty()
    } else {
        type_ref_names(ts[0]) + type_list_names(ts.drop_first())
    }
}

/// The named references made by a sequence of fields.
pub open spec fn field_list_names(fs: Seq<FieldDef>) -> Seq<Seq<char>>
    decreases fs,
{
    if fs.len() == 0 {
        Seq::empty()
    } else {
        type_ref_names(fs[0].ty) + field_list_names(fs.drop_first())
    }
}

/// The named references made by a sequence of enum variant payloads.
pub open spec fn variant_list_names(vs: Seq<VariantDef>) -> Seq<Seq<char>>
    decreases vs,
{
    if vs.len() == 0 {
        Seq::empty()
    } else {
        (match vs[0].payload {
            Some(t) => type_ref_names(t),
            None => Seq::empty(),
        }) + variant_list_names(vs.drop_first())
    }
}

/// The original name under which an item is declared; the sorter's node
/// identity.
pub open spec fn item_name(it: TypeItem) -> Seq<char> {
    match it {
        TypeItem::Struct(s) => s.id.original@,
        TypeItem::Enum(e) => e.id.original@,
        TypeItem::Alias(a) => a.id.original@,
    }
}

/// Every name an item refers to through its fields, variant payloads or
/// alias target.
pub open spec fn item_refs(it: TypeItem) -> Seq<Seq<char>> {
    match it {
        TypeItem::Struct(s) => field_list_names(s.fields@),
        TypeItem::Enum(e) => variant_list_names(e.variants@),
        TypeItem::Alias(a) => type_ref_names(a.target),
    }
}

/// Whether some item of `items` is declared under the name `n`.
pub open spec fn has_name(items: Seq<TypeItem>, n: Seq<char>) -> bool {
    exists|i: int| 0 <= i < items.len() && item_name(items[i]) == n
}

/// Item names are pairwise distinct: the precondition under which names
/// identify sorter nodes.
pub open spec fn distinct_names(items: Seq<TypeItem>) -> bool {
    forall|i: int, j: int|
        0 <= i < j < items.len() ==> item_name(items[i]) != item_name(items[j])
}

impl TypeRef {
    /// Whether this reference is already `Optional<T>`; the field
    /// emission step uses this to avoid double-wrapping nullability.
    pub open spec fn spec_is_optional(self) -> bool {
        match self {
            TypeRef::Special(SpecialType::Optional(_)) => true,
            _ => false,
        }
    }

    /// Executable counterpart of [`Self::spec_is_optional`].
    pub fn is_optional(&self) -> (r: bool)
        ensures
            r == self.spec_is_optional(),
    {
        match self {
            TypeRef::Special(SpecialType::Optional(_)) => true,
            _ => false,
        }
    }

    /// Append to `out` the name of every named reference inside this
    /// type, in left-to-right order.
    #[verifier::loop_isolation(false)]
    pub fn push_ref_names(&self, out: &mut Vec<String>)
        ensures
            final(out).deep_view() == old(out).deep_view() + type_ref_names(*self),
        decreases type_size(*self),
    {
        match self {
            TypeRef::Named { id, args } => {
                let ghost prev = out.deep_view();
                out.push(id.clone());
                assert(out.deep_view() =~= prev + seq![id@]);
                let ghost mid = out.deep_view();
                let mut i: usize = 0;
                while i < args.len()
                    invariant
                        i <= args.len(),
                        out.deep_view() == mid + type_list_names(args@.subrange(0, i as int)),
                        mid == prev + seq![id@],
                    decreases args.len() - i,
                {
                    proof {
                        lemma_type_list_size_bound(args@, i as int);
                        assert(type_size(*self) == 1 + type_list_size(args@));
                    }
                    args[i].push_ref_names(out);
                    proof {
                        lemma_type_list_names_snoc(args@.subrange(0, i as int), args@[i as int]);
                        assert(args@.subrange(0, i as int + 1)
                            =~= args@.subrange(0, i as int).push(args@[i as int]));
                        assert(mid + (type_list_names(args@.subrange(0, i as int))
                            + type_ref_names(args@[i as int]))
                            =~= (mid + type_list_names(args@.subrange(0, i as int)))
                                + type_ref_names(args@[i as int]));
                    }
                    i = i + 1;
                }
                proof {
                    assert(args@.subrange(0, args@.len() as int) =~= args@);
                    assert(prev + (seq![id@] + type_list_names(args@))
                        =~= (prev + seq![id@]) + type_list_names(args@));
                }
            }
            TypeRef::Special(s) => match s {
                SpecialType::List(inner)
                | SpecialType::FixedArray(inner, _)
                | SpecialType::Slice(inner)
                | SpecialType::Optional(inner) => {
                    inner.push_ref_names(out);
                }
                SpecialType::Dict(k, v) => {
                    let ghost prev = out.deep_view();
                    k.push_ref_names(out);
                    v.push_ref_names(out);
                    proof {
                        assert(prev + (type_ref_names(**k) + type_ref_names(**v))
                            =~= (prev + type_ref_names(**k)) + type_ref_names(**v));
                    }
                }
                _ => {
                    assert(out.deep_view() =~= old(out).deep_view() + Seq::<Seq<char>>::empty());
                }
            },
        }
    }
}

/// Splitting the last element off a type list splits its reference
/// names the same way.
pub proof fn lemma_type_list_names_snoc(ts: Seq<TypeRef>, x: TypeRef)
    ensures
        type_list_names(ts.push(x)) == type_list_names(ts) + type_ref_names(x),
    decreases ts.len(),
{
    if ts.len() == 0 {
        assert(ts.push(x)[0] == x);
        assert(ts.push(x).drop_first() =~= Seq::<TypeRef>::empty());
        assert(type_list_names(Seq::<TypeRef>::empty()) == Seq::<Seq<char>>::empty());
        assert(type_list_names(ts.push(x)) =~= type_ref_names(x));
        assert(type_list_names(ts) + type_ref_names(x) =~= type_ref_names(x));
    } else {
        assert(ts.push(x)[0] == ts[0]);
        assert(ts.push(x).drop_first() =~= ts.drop_first().push(x));
        lemma_type_list_names_snoc(ts.drop_first(), x);
        assert(type_ref_names(ts[0]) + (type_list_names(ts.drop_first()) + type_ref_names(x))
            =~= (type_ref_names(ts[0]) + type_list_names(ts.drop_first())) + type_ref_names(x));
    }
}

/// Splitting the last field off a field list splits its reference names
/// the same way.
pub proof fn lemma_field_list_names_snoc(fs: Seq<FieldDef>, x: FieldDef)
    ensures
        field_list_names(fs.push(x)) == field_list_names(fs) + type_ref_names(x.ty),
    decreases fs.len(),
{
    if fs.len() == 0 {
        assert(fs.push(x)[0] == x);
        assert(fs.push(x).drop_first() =~= Seq::<FieldDef>::empty());
        assert(field_list_names(Seq::<FieldDef>::empty()) == Seq::<Seq<char>>::empty());
        assert(field_list_names(fs.push(x)) =~= type_ref_names(x.ty));
        assert(field_list_names(fs) + type_ref_names(x.ty) =~= type_ref_names(x.ty));
    } else {
        assert(fs.push(x)[0] == fs[0]);
        assert(fs.push(x).drop_first() =~= fs.drop_first().push(x));
        lemma_field_list_names_snoc(fs.drop_first(), x);
        assert(type_ref_names(fs[0].ty) + (field_list_names(fs.drop_first()) + type_ref_names(x.ty))
            =~= (type_ref_names(fs[0].ty) + field_list_names(fs.drop_first())) + type_ref_names(x.ty));
    }
}

/// As [`lemma_field_list_names_snoc`], for enum variants.
pub proof fn lemma_variant_list_names_snoc(vs: Seq<VariantDef>, x: VariantDef)
    ensures
        variant_list_names(vs.push(x)) == variant_list_names(vs) + (match x.payload {
            Some(t) => type_ref_names(t),
            None => Seq::empty(),
        }),
    decreases vs.len(),
{
    let tail = match x.payload {
        Some(t) => type_ref_names(t),
        None => Seq::<Seq<char>>::empty(),
    };
    if vs.len() == 0 {
        assert(vs.push(x)[0] == x);
        assert(vs.push(x).drop_first() =~= Seq::<VariantDef>::empty());
        assert(variant_list_names(Seq::<VariantDef>::empty()) == Seq::<Seq<char>>::empty());
        assert(variant_list_names(vs.push(x)) =~= tail);
        assert(variant_list_names(vs) + tail =~= tail);
    } else {
        assert(vs.push(x)[0] == vs[0]);
        assert(vs.push(x).drop_first() =~= vs.drop_first().push(x));
        lemma_variant_list_names_snoc(vs.drop_first(), x);
        let head = match vs[0].payload {
            Some(t) => type_ref_names(t),
            None => Seq::<Seq<char>>::empty(),
        };
        assert(head + (variant_list_names(vs.drop_first()) + tail)
            =~= (head + variant_list_names(vs.drop_first())) + tail);
    }
}

impl TypeItem {
    /// The original name under which the item is declared.
    pub fn name(&self) -> (r: &String)
        ensures
            r@ == item_name(*self),
    {
        match self {
            TypeItem::Struct(s) => &s.id.original,
            TypeItem::Enum(e) => &e.id.original,
            TypeItem::Alias(a) => &a.id.original,
        }
    }

    /// Collect the name of every named reference the item makes through
    /// its fields, variant payloads or alias target.
    pub fn ref_names(&self) -> (r: Vec<String>)
        ensures
            r.deep_view() == item_refs(*self),
    {
        let mut out: Vec<String> = Vec::new();
        assert(out.deep_view() =~= Seq::<Seq<char>>::empty());
        match self {
            TypeItem::Struct(s) => {
                let mut i: usize = 0;
                while i < s.fields.len()
                    invariant
                        i <= s.fields.len(),
                        out.deep_view() == field_list_names(s.fields@.subrange(0, i as int)),
                    decreases s.fields.len() - i,
                {
                    s.fields[i].ty.push_ref_names(&mut out);
                    proof {
                        lemma_field_list_names_snoc(
                            s.fields@.subrange(0, i as int),
                            s.fields@[i as int],
                        );
                        assert(s.fields@.subrange(0, i as int + 1)
                            =~= s.fields@.subrange(0, i as int).push(s.fields@[i as int]));
                    }
                    i = i + 1;
                }
                proof {
                    assert(s.fields@.subrange(0, s.fields@.len() as int) =~= s.fields@);
                }
            }
            TypeItem::Enum(e) => {
                let mut i: usize = 0;
                while i < e.variants.len()
                    invariant
                        i <= e.variants.len(),
                        out.deep_view() == variant_list_names(e.variants@.subrange(0, i as int)),
                    decreases e.variants.len() - i,
                {
                    match &e.variants[i].payload {
                        Some(t) => t.push_ref_names(&mut out),
                        None => (),
                    }
                    proof {
                        lemma_variant_list_names_snoc(
                            e.variants@.subrange(0, i as int),
                            e.variants@[i as int],
                        );
                        assert(e.variants@.subrange(0, i as int + 1)
                            =~= e.variants@.subrange(0, i as int).push(e.variants@[i as int]));
                    }
                    i = i + 1;
                }
                proof {
                    assert(e.variants@.subrange(0, e.variants@.len() as int) =~= e.variants@);
                }
            }
            TypeItem::Alias(a) => {
                a.target.push_ref_names(&mut out);
            }
        }
        out
    }
}

/// Append one string to a string vector; stated over the deep view.
pub fn push_string(v: &mut Vec<String>, s: String)
    ensures
        final(v).deep_view() == old(v).deep_view().push(s@),
        final(v)@.len() == old(v)@.len() + 1,
{
    let ghost vold = v@;
    let ghost dvold = v.deep_view();
    let ghost sv = s@;
    v.push(s);
    assert forall|j: int| 0 <= j < v@.len() implies v.deep_view()[j] == dvold.push(sv)[j] by {
        assert(v@ == vold.push(s));
        if j < vold.len() as int {
            assert(vold.push(s)[j] == vold[j]);
            assert(v@[j] == vold[j]);
            assert(dvold[j] == vold[j]@);
        } else {
            assert(vold.push(s)[j] == s);
        }
    }
    assert(v.deep_view() =~= dvold.push(sv));
}

/// Whether some string of `v` reads `n`.
pub fn contains_string(v: &Vec<String>, n: &String) -> (r: bool)
    ensures
        r == v.deep_view().contains(n@),
{
    let mut i: usize = 0;
    while i < v.len()
        invariant
            i <= v.len(),
            forall|j: int| 0 <= j < i ==> v.deep_view()[j] != n@,
        decreases v.len() - i,
    {
        if v[i] == *n {
            assert(v.deep_view()[i as int] == n@);
            return true;
        }
        i = i + 1;
    }
    false
}

/// The override registered for `lang` among `overrides`, if any: the
/// first entry whose language matches.
pub open spec fn override_for(overrides: Seq<TypeOverride>, lang: Seq<char>) -> Option<Seq<char>>
    decreases overrides,
{
    if overrides.len() == 0 {
        None
    } else if overrides[0].language@ == lang {
        Some(overrides[0].value@)
    } else {
        override_for(overrides.drop_first(), lang)
    }
}

impl FieldDef {
    /// The literal type override this field registers for the target
    /// language `lang`, if any.
    pub fn type_override(&self, lang: &String) -> (r: Option<&String>)
        ensures
            match r {
                Some(s) => override_for(self.overrides@, lang@) == Some(s@),
                None => override_for(self.overrides@, lang@) is None,
            },
    {
        let mut i: usize = 0;
        assert(self.overrides@.subrange(0, self.overrides@.len() as int) =~= self.overrides@);
        while i < self.overrides.len()
            invariant
                i <= self.overrides.len(),
                override_for(self.overrides@, lang@)
                    == override_for(self.overrides@.subrange(i as int, self.overrides@.len() as int), lang@),
            decreases self.overrides.len() - i,
        {
            let entry = &self.overrides[i];
            if entry.language == *lang {
                return Some(&entry.value);
            }
            proof {
                let rest = self.overrides@.subrange(i as int, self.overrides@.len() as int);
                assert(rest[0] == self.overrides@[i as int]);
                assert(rest.drop_first()
                    =~= self.overrides@.subrange(i as int + 1, self.overrides@.len() as int));
            }
            i = i + 1;
        }
        None
    }
}

} // verus!
