//! The backend contract: the operation set every target-language
//! generator implements, the derived struct-like name set, and the
//! driver that walks a dependency-ordered worklist emitting each item.

use vstd::prelude::*;

use crate::errors::{
    fmt_res_matches, res_matches, GenerateError, GenerateErrorView, TypeFormatError,
    TypeFormatErrorView,
};
use crate::model::{
    contains_string, push_string, AliasDef, EnumDef, ParsedData, SpecialType, StructDef, TypeItem,
    TypeRef,
};
use crate::topsort::{dependency_ordered, stable_order, topsort, unresolvable};

verus! {

/// One entry of a backend's private table mapping a source type name to
/// a target type name, consulted when a named reference is rendered.
#[derive(Debug)]
pub struct TypeMapping {
    pub source: String,
    pub target: String,
}

/// The capability set of one target-language generator.  Each exec
/// method is pinned to a spec-level counterpart, so the driver's output
/// is described exactly in terms of the backend's own rendering
/// functions.
pub trait Language: Sized {
    /// The identifier under which per-field overrides for this target
    /// are registered.
    spec fn spec_language(&self) -> Seq<char>;

    /// The text [`Self::begin_file`] emits.
    spec fn spec_begin_file(&self) -> Seq<char>;

    /// The text [`Self::end_file`] emits.
    spec fn spec_end_file(&self) -> Seq<char>;

    /// The backend's type-name mapping table.
    spec fn spec_type_map(&self) -> Seq<TypeMapping>;

    /// What the backend emits for one struct, or the error it reports.
    spec fn spec_struct(&self, s: StructDef) -> Result<Seq<char>, GenerateErrorView>;

    /// What the backend emits for one enum, or the error it reports;
    /// `struct_like` is the set of struct-shaped names.
    spec fn spec_enum(&self, e: EnumDef, struct_like: Seq<Seq<char>>) -> Result<
        Seq<char>,
        GenerateErrorView,
    >;

    /// What the backend emits for one type alias, or the error it
    /// reports.
    spec fn spec_alias(&self, a: AliasDef) -> Result<Seq<char>, GenerateErrorView>;

    /// The language-specific rendering of one special shape, or the
    /// formatting error it reports.
    spec fn spec_special(&self, s: SpecialType, generics: Seq<Seq<char>>) -> Result<
        Seq<char>,
        TypeFormatErrorView,
    >;

    /// The target-language identifier of this backend.
    fn language(&self) -> (r: String)
        ensures
            r@ == self.spec_language(),
    ;

    /// Framing emitted once at the top of an output; may be empty.
    fn begin_file(&self) -> (r: String)
        ensures
            r@ == self.spec_begin_file(),
    ;

    /// Framing emitted once at the bottom of an output; may be empty.
    fn end_file(&self) -> (r: String)
        ensures
            r@ == self.spec_end_file(),
    ;

    /// The backend's type-name mapping table.
    fn type_map(&self) -> (r: &Vec<TypeMapping>)
        ensures
            r@ == self.spec_type_map(),
    ;

    /// Emit one struct: its comments, identity, and every field in
    /// declared order.
    fn write_struct(&self, rs: &StructDef) -> (r: Result<String, GenerateError>)
        ensures
            res_matches(r, self.spec_struct(*rs)),
    ;

    /// Emit one enum, or fail fast with a typed error naming the
    /// unsupported construct and the offending item.
    fn write_enum(&self, e: &EnumDef, struct_like: &Vec<String>) -> (r: Result<
        String,
        GenerateError,
    >)
        ensures
            res_matches(r, self.spec_enum(*e, struct_like.deep_view())),
            match r {
                Err(GenerateError::UnsupportedConstruct { kind: _, name }) => name@
                    == e.id.original@,
                _ => true,
            },
    ;

    /// Emit one type alias: a new name bound to the formatted
    /// underlying type.
    fn write_type_alias(&self, ty: &AliasDef) -> (r: Result<String, GenerateError>)
        ensures
            res_matches(r, self.spec_alias(*ty)),
    ;

    /// Render one special shape in the target language's syntax.
    fn format_special_type(&self, special: &SpecialType, generic_types: &Vec<String>) -> (r:
        Result<String, TypeFormatError>)
        ensures
            fmt_res_matches(r, self.spec_special(*special, generic_types.deep_view())),
    ;
}

/// Whether a chain of at most `depth` alias links leads from the name
/// `n` to a declared struct: the closure step of the struct-like set.
pub open spec fn chain_to_struct(
    structs: Seq<StructDef>,
    aliases: Seq<AliasDef>,
    n: Seq<char>,
    depth: nat,
) -> bool
    decreases depth,
{
    (exists|i: int| 0 <= i < structs.len() && (#[trigger] structs[i]).id.original@ == n) || (depth
        > 0 && exists|j: int|
        0 <= j < aliases.len() && (#[trigger] aliases[j]).id.original@ == n && (
        match aliases[j].target {
            TypeRef::Named { id, args } => chain_to_struct(structs, aliases, id@, (depth - 1) as nat),
            TypeRef::Special(_) => false,
        }))
}

/// Whether `n` is struct-like: a struct name, or an alias name whose
/// target chain reaches a struct.  This is the least set containing
/// every struct name and closed under "an alias of a struct-like type
/// is itself struct-like".
pub open spec fn is_struct_like(structs: Seq<StructDef>, aliases: Seq<AliasDef>, n: Seq<char>) -> bool {
    exists|d: nat| chain_to_struct(structs, aliases, n, d)
}

/// Whether `sl` is the struct-like name set of a snapshot, free of
/// duplicates.
pub open spec fn struct_like_set(
    structs: Seq<StructDef>,
    aliases: Seq<AliasDef>,
    sl: Seq<Seq<char>>,
) -> bool {
    &&& forall|n: Seq<char>| #[trigger] sl.contains(n) <==> is_struct_like(structs, aliases, n)
    &&& sl.no_duplicates()
}

/// Whether the closure rule has nothing left to add for one alias.
spec fn settled(names: Seq<Seq<char>>, a: AliasDef) -> bool {
    match a.target {
        TypeRef::Named { id, args } => names.contains(id@) ==> names.contains(a.id.original@),
        TypeRef::Special(_) => true,
    }
}

/// How many aliases already have their name in `names`.
spec fn count_present(names: Seq<Seq<char>>, aliases: Seq<AliasDef>) -> nat
    decreases aliases,
{
    if aliases.len() == 0 {
        0
    } else {
        (if names.contains(aliases[0].id.original@) {
            1nat
        } else {
            0nat
        }) + count_present(names, aliases.drop_first())
    }
}

/// No more aliases can be present than exist.
proof fn lemma_count_present_bound(names: Seq<Seq<char>>, aliases: Seq<AliasDef>)
    ensures
        count_present(names, aliases) <= aliases.len(),
    decreases aliases,
{
    if aliases.len() > 0 {
        lemma_count_present_bound(names, aliases.drop_first());
    }
}

/// A larger name set has at least as many aliases present.
proof fn lemma_count_present_mono(a: Seq<Seq<char>>, b: Seq<Seq<char>>, aliases: Seq<AliasDef>)
    requires
        forall|n: Seq<char>| #[trigger] a.contains(n) ==> b.contains(n),
    ensures
        count_present(a, aliases) <= count_present(b, aliases),
    decreases aliases,
{
    if aliases.len() > 0 {
        lemma_count_present_mono(a, b, aliases.drop_first());
    }
}

/// Adding some alias's missing name makes strictly more aliases
/// present.
proof fn lemma_count_present_strict(
    a: Seq<Seq<char>>,
    b: Seq<Seq<char>>,
    aliases: Seq<AliasDef>,
    j: int,
)
    requires
        forall|n: Seq<char>| #[trigger] a.contains(n) ==> b.contains(n),
        0 <= j < aliases.len(),
        !a.contains(aliases[j].id.original@),
        b.contains(aliases[j].id.original@),
    ensures
        count_present(a, aliases) < count_present(b, aliases),
    decreases aliases,
{
    if j == 0 {
        lemma_count_present_mono(a, b, aliases.drop_first());
    } else {
        assert(aliases.drop_first()[j - 1] == aliases[j]);
        lemma_count_present_strict(a, b, aliases.drop_first(), j - 1);
    }
}

/// A name set holding every struct name and settled for every alias
/// holds every struct-like name.
proof fn lemma_closure_complete(
    structs: Seq<StructDef>,
    aliases: Seq<AliasDef>,
    names: Seq<Seq<char>>,
    n: Seq<char>,
    d: nat,
)
    requires
        forall|k: int| 0 <= k < structs.len() ==> names.contains((#[trigger] structs[k]).id.original@),
        forall|j: int| 0 <= j < aliases.len() ==> settled(names, #[trigger] aliases[j]),
        chain_to_struct(structs, aliases, n, d),
    ensures
        names.contains(n),
    decreases d,
{
    if exists|i: int| 0 <= i < structs.len() && (#[trigger] structs[i]).id.original@ == n {
        let i = choose|i: int| 0 <= i < structs.len() && (#[trigger] structs[i]).id.original@ == n;
        assert(names.contains(structs[i].id.original@));
    } else {
        let j = choose|j: int|
            0 <= j < aliases.len() && (#[trigger] aliases[j]).id.original@ == n && (
            match aliases[j].target {
                TypeRef::Named { id, args } => chain_to_struct(
                    structs,
                    aliases,
                    id@,
                    (d - 1) as nat,
                ),
                TypeRef::Special(_) => false,
            });
        match aliases[j].target {
            TypeRef::Named { id, args: _ } => {
                lemma_closure_complete(structs, aliases, names, id@, (d - 1) as nat);
                assert(settled(names, aliases[j]));
            }
            TypeRef::Special(_) => {
                assert(false);
            }
        }
    }
}

/// Add `name` to the set when it is absent; afterwards the set holds
/// exactly what it held before, plus `name`.
fn add_name(acc: &mut Vec<String>, name: &String)
    requires
        old(acc).deep_view().no_duplicates(),
    ensures
        final(acc).deep_view().no_duplicates(),
        forall|n: Seq<char>|
            #[trigger] final(acc).deep_view().contains(n) <==> (old(acc).deep_view().contains(n)
                || n == name@),
{
    if !contains_string(acc, name) {
        let ghost dvold = acc.deep_view();
        push_string(acc, name.clone());
        proof {
            assert forall|n: Seq<char>| #[trigger] acc.deep_view().contains(n) <==> (dvold.contains(
                n,
            ) || n == name@) by {
                if acc.deep_view().contains(n) {
                    let ix = choose|ix: int|
                        0 <= ix < acc.deep_view().len() && acc.deep_view()[ix] == n;
                    if ix < dvold.len() as int {
                        assert(dvold[ix] == n);
                        assert(dvold.contains(n));
                    } else {
                        assert(n == name@);
                    }
                }
                if dvold.contains(n) {
                    let ix = choose|ix: int| 0 <= ix < dvold.len() && dvold[ix] == n;
                    assert(acc.deep_view()[ix] == n);
                    assert(acc.deep_view().contains(n));
                }
                if n == name@ {
                    assert(acc.deep_view()[dvold.len() as int] == name@);
                    assert(acc.deep_view().contains(n));
                }
            }
            assert forall|p: int, q: int|
                0 <= p < q < acc.deep_view().len() implies acc.deep_view()[p]
                != acc.deep_view()[q] by {
                if q < dvold.len() as int {
                    assert(dvold[p] != dvold[q]);
                } else {
                    assert(acc.deep_view()[q] == name@);
                    assert(acc.deep_view()[p] == dvold[p]);
                    assert(dvold.contains(dvold[p]));
                }
            }
        }
    }
}

/// One closure pass: add every alias whose target is already a
/// struct-like name.  Reports whether anything was added.
fn alias_pass(acc: &mut Vec<String>, structs: &Vec<StructDef>, aliases: &Vec<AliasDef>) -> (changed:
    bool)
    requires
        old(acc).deep_view().no_duplicates(),
        forall|n: Seq<char>|
            #[trigger] old(acc).deep_view().contains(n) ==> is_struct_like(structs@, aliases@, n),
    ensures
        final(acc).deep_view().no_duplicates(),
        forall|n: Seq<char>|
            #[trigger] final(acc).deep_view().contains(n) ==> is_struct_like(structs@, aliases@, n),
        forall|n: Seq<char>|
            old(acc).deep_view().contains(n) ==> #[trigger] final(acc).deep_view().contains(n),
        !changed ==> final(acc).deep_view() == old(acc).deep_view() && (forall|j: int|
            0 <= j < aliases@.len() ==> settled(final(acc).deep_view(), #[trigger] aliases@[j])),
        changed ==> count_present(old(acc).deep_view(), aliases@) < count_present(
            final(acc).deep_view(),
            aliases@,
        ),
{
    let ghost pass_old = acc.deep_view();
    let mut changed = false;
    let mut j: usize = 0;
    while j < aliases.len()
        invariant
            j <= aliases.len(),
            acc.deep_view().no_duplicates(),
            forall|n: Seq<char>|
                #[trigger] acc.deep_view().contains(n) ==> is_struct_like(structs@, aliases@, n),
            forall|n: Seq<char>| pass_old.contains(n) ==> #[trigger] acc.deep_view().contains(n),
            !changed ==> acc.deep_view() == pass_old && (forall|j2: int|
                0 <= j2 < j ==> settled(acc.deep_view(), #[trigger] aliases@[j2])),
            changed ==> count_present(pass_old, aliases@) < count_present(
                acc.deep_view(),
                aliases@,
            ),
        decreases aliases.len() - j,
    {
        match &aliases[j].target {
            TypeRef::Named { id, args: _ } => {
                if contains_string(acc, id) {
                    let aname = &aliases[j].id.original;
                    if !contains_string(acc, aname) {
                        let ghost mid = acc.deep_view();
                        proof {
                            let d = choose|d: nat| chain_to_struct(structs@, aliases@, id@, d);
                            assert(chain_to_struct(structs@, aliases@, aname@, d + 1));
                        }
                        add_name(acc, aname);
                        proof {
                            if changed {
                                lemma_count_present_mono(mid, acc.deep_view(), aliases@);
                            } else {
                                lemma_count_present_strict(
                                    pass_old,
                                    acc.deep_view(),
                                    aliases@,
                                    j as int,
                                );
                            }
                        }
                        changed = true;
                    }
                }
            }
            TypeRef::Special(_) => (),
        }
        j = j + 1;
    }
    changed
}

/// Compute the struct-like names: the least set containing every
/// declared struct name and closed under "an alias of a struct-like
/// type is itself struct-like", whatever order the alias chains are
/// declared in.  Backends that distinguish reference from value types
/// consult it.
pub fn struct_like_names(structs: &Vec<StructDef>, aliases: &Vec<AliasDef>) -> (r: Vec<String>)
    ensures
        struct_like_set(structs@, aliases@, r.deep_view()),
{
    let mut acc: Vec<String> = Vec::new();
    let mut i: usize = 0;
    assert(acc.deep_view() =~= Seq::<Seq<char>>::empty());
    while i < structs.len()
        invariant
            i <= structs.len(),
            acc.deep_view().no_duplicates(),
            forall|n: Seq<char>|
                #[trigger] acc.deep_view().contains(n) ==> is_struct_like(structs@, aliases@, n),
            forall|k: int|
                0 <= k < i ==> acc.deep_view().contains((#[trigger] structs@[k]).id.original@),
        decreases structs.len() - i,
    {
        proof {
            assert(chain_to_struct(structs@, aliases@, structs@[i as int].id.original@, 0));
        }
        add_name(&mut acc, &structs[i].id.original);
        i = i + 1;
    }
    let mut changed = true;
    while changed
        invariant
            acc.deep_view().no_duplicates(),
            forall|n: Seq<char>|
                #[trigger] acc.deep_view().contains(n) ==> is_struct_like(structs@, aliases@, n),
            forall|k: int|
                0 <= k < structs@.len() ==> acc.deep_view().contains(
                    (#[trigger] structs@[k]).id.original@,
                ),
            !changed ==> forall|j: int|
                0 <= j < aliases@.len() ==> settled(acc.deep_view(), #[trigger] aliases@[j]),
        decreases 2 * (aliases@.len() - count_present(acc.deep_view(), aliases@)) + (if changed {
            1int
        } else {
            0int
        }),
    {
        let ghost pre = acc.deep_view();
        proof {
            lemma_count_present_bound(pre, aliases@);
        }
        changed = alias_pass(&mut acc, structs, aliases);
        proof {
            lemma_count_present_bound(acc.deep_view(), aliases@);
            if changed {
                lemma_count_present_mono(pre, acc.deep_view(), aliases@);
            }
        }
    }
    proof {
        assert forall|n: Seq<char>| #[trigger] acc.deep_view().contains(n) <==> is_struct_like(
            structs@,
            aliases@,
            n,
        ) by {
            if is_struct_like(structs@, aliases@, n) {
                let d = choose|d: nat| chain_to_struct(structs@, aliases@, n, d);
                lemma_closure_complete(structs@, aliases@, acc.deep_view(), n, d);
            }
        }
    }
    acc
}

/// The single worklist the driver sorts and walks: every alias, then
/// every struct, then every enum, in declaration order.
pub open spec fn worklist_of(data: ParsedData) -> Seq<TypeItem> {
    Seq::new(data.aliases@.len(), |i: int| TypeItem::Alias(data.aliases@[i])) + Seq::new(
        data.structs@.len(),
        |i: int| TypeItem::Struct(data.structs@[i]),
    ) + Seq::new(data.enums@.len(), |i: int| TypeItem::Enum(data.enums@[i]))
}

/// What one item renders to under a backend.
pub open spec fn spec_item<L: Language>(lang: L, it: TypeItem, struct_like: Seq<Seq<char>>) -> Result<
    Seq<char>,
    GenerateErrorView,
> {
    match it {
        TypeItem::Struct(s) => lang.spec_struct(s),
        TypeItem::Enum(e) => lang.spec_enum(e, struct_like),
        TypeItem::Alias(a) => lang.spec_alias(a),
    }
}

/// Whether every item of `items` renders without error.
pub open spec fn items_all_ok<L: Language>(lang: L, items: Seq<TypeItem>, struct_like: Seq<
    Seq<char>,
>) -> bool {
    forall|i: int|
        0 <= i < items.len() ==> spec_item(lang, #[trigger] items[i], struct_like) is Ok
}

/// The concatenated renderings of `items`, in order; items that fail to
/// render contribute nothing (the driver stops at the first failure).
pub open spec fn items_text<L: Language>(lang: L, items: Seq<TypeItem>, struct_like: Seq<Seq<char>>) -> Seq<
    char,
>
    decreases items.len(),
{
    if items.len() == 0 {
        Seq::empty()
    } else {
        items_text(lang, items.drop_last(), struct_like) + (match spec_item(
            lang,
            items.last(),
            struct_like,
        ) {
            Ok(t) => t,
            Err(_) => Seq::empty(),
        })
    }
}

/// Turn the snapshot into the driver's worklist.
#[verifier::loop_isolation(false)]
fn build_worklist(data: ParsedData) -> (r: Vec<TypeItem>)
    ensures
        r@ == worklist_of(data),
{
    let ghost goal = worklist_of(data);
    let ParsedData { structs, enums, aliases } = data;
    let ghost ga = aliases@;
    let ghost gs = structs@;
    let ghost ge = enums@;
    let ghost na = ga.len() as int;
    let ghost ns = na + gs.len() as int;
    let ghost ne = ns + ge.len() as int;
    let mut aliases = aliases;
    let mut structs = structs;
    let mut enums = enums;
    let mut items: Vec<TypeItem> = Vec::new();
    proof {
        assert(goal.len() == ne);
        assert forall|t: int| 0 <= t < na implies goal[t] == TypeItem::Alias(ga[t]) by {}
        assert forall|t: int| na <= t < ns implies goal[t] == TypeItem::Struct(gs[t - na]) by {}
        assert forall|t: int| ns <= t < ne implies goal[t] == TypeItem::Enum(ge[t - ns]) by {}
        assert(items@ =~= goal.subrange(0, 0));
        assert(ga.subrange(0, na) =~= ga);
        assert(gs.subrange(0, gs.len() as int) =~= gs);
        assert(ge.subrange(0, ge.len() as int) =~= ge);
    }
    while aliases.len() > 0
        invariant
            goal.len() == ne,
            forall|t: int| 0 <= t < na ==> #[trigger] goal[t] == TypeItem::Alias(ga[t]),
            items@.len() + aliases@.len() == na,
            aliases@ == ga.subrange(items@.len() as int, na),
            items@ == goal.subrange(0, items@.len() as int),
        decreases aliases.len(),
    {
        let ghost k = items@.len() as int;
        let a = aliases.remove(0);
        assert(a == ga[k]);
        let ghost vold = items@;
        items.push(TypeItem::Alias(a));
        proof {
            assert(aliases@ =~= ga.subrange(k + 1, na));
            assert(goal[k] == TypeItem::Alias(ga[k]));
            assert forall|t: int| 0 <= t < items@.len() implies items@[t] == goal.subrange(
                0,
                k + 1,
            )[t] by {
                assert(items@ == vold.push(TypeItem::Alias(a)));
                if t < k {
                    assert(vold.push(TypeItem::Alias(a))[t] == vold[t]);
                } else {
                    assert(vold.push(TypeItem::Alias(a))[t] == TypeItem::Alias(a));
                }
            }
            assert(items@ =~= goal.subrange(0, k + 1));
        }
    }
    while structs.len() > 0
        invariant
            goal.len() == ne,
            forall|t: int| na <= t < ns ==> #[trigger] goal[t] == TypeItem::Struct(gs[t - na]),
            na <= items@.len(),
            items@.len() + structs@.len() == ns,
            structs@ == gs.subrange(items@.len() - na, gs.len() as int),
            items@ == goal.subrange(0, items@.len() as int),
        decreases structs.len(),
    {
        let ghost k = items@.len() as int;
        let st = structs.remove(0);
        assert(st == gs[k - na]);
        let ghost vold = items@;
        items.push(TypeItem::Struct(st));
        proof {
            assert(structs@ =~= gs.subrange(k - na + 1, gs.len() as int));
            assert(goal[k] == TypeItem::Struct(gs[k - na]));
            assert forall|t: int| 0 <= t < items@.len() implies items@[t] == goal.subrange(
                0,
                k + 1,
            )[t] by {
                assert(items@ == vold.push(TypeItem::Struct(st)));
                if t < k {
                    assert(vold.push(TypeItem::Struct(st))[t] == vold[t]);
                } else {
                    assert(vold.push(TypeItem::Struct(st))[t] == TypeItem::Struct(st));
                }
            }
            assert(items@ =~= goal.subrange(0, k + 1));
        }
    }
    while enums.len() > 0
        invariant
            goal.len() == ne,
            forall|t: int| ns <= t < ne ==> #[trigger] goal[t] == TypeItem::Enum(ge[t - ns]),
            ns <= items@.len(),
            items@.len() + enums@.len() == ne,
            enums@ == ge.subrange(items@.len() - ns, ge.len() as int),
            items@ == goal.subrange(0, items@.len() as int),
        decreases enums.len(),
    {
        let ghost k = items@.len() as int;
        let en = enums.remove(0);
        assert(en == ge[k - ns]);
        let ghost vold = items@;
        items.push(TypeItem::Enum(en));
        proof {
            assert(enums@ =~= ge.subrange(k - ns + 1, ge.len() as int));
            assert(goal[k] == TypeItem::Enum(ge[k - ns]));
            assert forall|t: int| 0 <= t < items@.len() implies items@[t] == goal.subrange(
                0,
                k + 1,
            )[t] by {
                assert(items@ == vold.push(TypeItem::Enum(en)));
                if t < k {
                    assert(vold.push(TypeItem::Enum(en))[t] == vold[t]);
                } else {
                    assert(vold.push(TypeItem::Enum(en))[t] == TypeItem::Enum(en));
                }
            }
            assert(items@ =~= goal.subrange(0, k + 1));
        }
    }
    proof {
        assert(items@ =~= goal);
    }
    items
}

/// Walk the snapshot in dependency order, emitting every item through
/// the backend: file framing, then one emission per item.  The output
/// is exactly the backend's framing around the concatenated item
/// renderings of some dependency-respecting permutation of the
/// worklist; a cycle or an item the backend rejects aborts the run with
/// that typed error.
#[verifier::loop_isolation(false)]
pub fn generate<L: Language>(lang: &L, data: ParsedData) -> (r: Result<String, GenerateError>)
    ensures
        match r {
            Ok(text) => exists|sorted: Seq<TypeItem>, sl: Seq<Seq<char>>|
                {
                    &&& #[trigger] sorted.to_multiset() == worklist_of(data).to_multiset()
                    &&& dependency_ordered(sorted)
                    &&& crate::model::distinct_names(worklist_of(data)) ==> stable_order(
                        worklist_of(data),
                        sorted,
                    )
                    &&& struct_like_set(data.structs@, data.aliases@, sl)
                    &&& items_all_ok(*lang, sorted, sl)
                    &&& text@ == lang.spec_begin_file() + #[trigger] items_text(*lang, sorted, sl)
                        + lang.spec_end_file()
                },
            Err(ge) => {
                ||| (ge@ matches GenerateErrorView::UnresolvableCycle(ns) && unresolvable(
                    worklist_of(data),
                    ns,
                ))
                ||| exists|sorted: Seq<TypeItem>, k: int, sl: Seq<Seq<char>>|
                    {
                        &&& #[trigger] sorted.to_multiset() == worklist_of(data).to_multiset()
                        &&& dependency_ordered(sorted)
                        &&& 0 <= k < sorted.len()
                        &&& struct_like_set(data.structs@, data.aliases@, sl)
                        &&& #[trigger] items_all_ok(*lang, sorted.subrange(0, k), sl)
                        &&& spec_item(*lang, sorted[k], sl) == Err::<
                            Seq<char>,
                            GenerateErrorView,
                        >(ge@)
                    }
            },
        },
{
    let struct_like = struct_like_names(&data.structs, &data.aliases);
    let ghost sl = struct_like.deep_view();
    let ghost wl = worklist_of(data);
    let items = build_worklist(data);
    let sorted = match topsort(items) {
        Ok(s) => s,
        Err(ce) => {
            return Err(GenerateError::UnresolvableCycle(ce));
        }
    };
    let mut text = lang.begin_file();
    let mut i: usize = 0;
    while i < sorted.len()
        invariant
            wl == worklist_of(data),
            struct_like.deep_view() == sl,
            struct_like_set(data.structs@, data.aliases@, sl),
            sorted@.to_multiset() == worklist_of(data).to_multiset(),
            dependency_ordered(sorted@),
            crate::model::distinct_names(wl) ==> stable_order(wl, sorted@),
            items_all_ok(*lang, sorted@.subrange(0, i as int), sl),
            i <= sorted@.len(),
            text@ == lang.spec_begin_file() + items_text(*lang, sorted@.subrange(0, i as int), sl),
        decreases sorted@.len() - i,
    {
        let piece: Result<String, GenerateError>;
        match &sorted[i] {
            TypeItem::Struct(s) => {
                piece = lang.write_struct(s);
                proof {
                    assert(res_matches(piece, spec_item(*lang, sorted@[i as int], sl)));
                }
            }
            TypeItem::Enum(e) => {
                piece = lang.write_enum(e, &struct_like);
                proof {
                    assert(res_matches(piece, spec_item(*lang, sorted@[i as int], sl)));
                }
            }
            TypeItem::Alias(a) => {
                piece = lang.write_type_alias(a);
                proof {
                    assert(res_matches(piece, spec_item(*lang, sorted@[i as int], sl)));
                }
            }
        }
        let rendered = match piece {
            Ok(t) => t,
            Err(ge) => {
                proof {
                    assert(spec_item(*lang, sorted@[i as int], sl) == Err::<
                        Seq<char>,
                        GenerateErrorView,
                    >(ge@));
                }
                return Err(ge);
            }
        };
        text.append(rendered.as_str());
        proof {
            let pre = sorted@.subrange(0, i as int);
            let cur = sorted@.subrange(0, i as int + 1);
            assert(cur.drop_last() =~= pre);
            assert(cur.last() == sorted@[i as int]);
            assert forall|t: int| 0 <= t < cur.len() implies spec_item(
                *lang,
                #[trigger] cur[t],
                sl,
            ) is Ok by {
                if t < i as int {
                    assert(cur[t] == pre[t]);
                    assert(spec_item(*lang, pre[t], sl) is Ok);
                }
            }
            assert(text@ == lang.spec_begin_file() + items_text(*lang, cur, sl)) by {
                assert(items_text(*lang, cur, sl) == items_text(*lang, pre, sl)
                    + rendered@);
                assert((lang.spec_begin_file() + items_text(*lang, pre, sl)) + rendered@
                    =~= lang.spec_begin_file() + (items_text(*lang, pre, sl) + rendered@));
            }
        }
        i = i + 1;
    }
    let tail = lang.end_file();
    text.append(tail.as_str());
    proof {
        assert(sorted@.subrange(0, sorted@.len() as int) =~= sorted@);
    }
    Ok(text)
}

} // verus!
