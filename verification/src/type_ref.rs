//! Semantic type references and the resolver that classifies a raw C++
//! type into one: qualifiers are stripped and recorded first, then the
//! underlying type is matched against the primitive table, the known
//! class/enum symbols (referenced by identity key, never inlined), and the
//! closed set of generic container shapes; anything else is `Opaque`.
use vstd::prelude::*;

use crate::bytes_eq;
use crate::generator_env::GeneratorEnv;
use crate::generator_env::SymbolEntry;
use crate::generator_env::spec_lookup_symbol;

verus! {

/// The primitives the target language has a direct mapping for.
#[derive(PartialEq, Eq, Structural, Clone, Copy, Debug)]
pub enum Primitive {
    Void,
    Bool,
    Char,
    Int,
    Unsigned,
    Float,
    Double,
    SizeT,
}

/// How a smart pointer owns its pointee.
#[derive(PartialEq, Eq, Structural, Clone, Copy, Debug)]
pub enum Ownership {
    Shared,
    Exclusive,
    Weak,
}

/// The qualifiers stripped off a raw type: constness, pointer depth and
/// reference-ness. Pointer depth saturates at its maximum rather than wrap.
#[derive(PartialEq, Eq, Structural, Clone, Copy, Debug)]
pub struct QualStack {
    pub is_const: bool,
    pub ptr_depth: u64,
    pub is_ref: bool,
}

/// A raw type as the front end hands it over: surface shape, not yet
/// classified.
pub enum RawType {
    /// A named non-generic type: a primitive or a class/enum name.
    Named(Vec<u8>),
    Const(Box<RawType>),
    Pointer(Box<RawType>),
    Reference(Box<RawType>),
    /// A one-argument template instantiation, by template name.
    Template(Vec<u8>, Box<RawType>),
    /// A two-argument template instantiation (the fixed tuple shape).
    TemplatePair(Vec<u8>, Box<RawType>, Box<RawType>),
    /// A function (pointer) type.
    Function,
}

/// What a type means to the generator.
pub enum TypeRefKind {
    Primitive(Primitive),
    /// A class, held as an identity key into the environment's symbol
    /// table — never an inlined copy, which is what keeps resolution of
    /// self-referential classes finite.
    Class(u64),
    Enum(u64),
    Function,
    Vector(Box<TypeRef>),
    SmartPtr(Box<TypeRef>, Ownership),
    Tuple(Box<TypeRef>, Box<TypeRef>),
    /// Recognised but unsupported: carried without detail, and causes the
    /// declaration using it to be skipped with a diagnostic.
    Opaque,
}

/// A semantic type reference: a qualifier stack over a classified kind.
pub struct TypeRef {
    pub quals: QualStack,
    pub kind: TypeRefKind,
}

pub open spec fn no_quals() -> QualStack {
    QualStack { is_const: false, ptr_depth: 0, is_ref: false }
}

// ---- the primitive table ----
/// `void`
pub open spec fn name_void() -> Seq<u8> {
    seq![118u8, 111u8, 105u8, 100u8]
}

/// `bool`
pub open spec fn name_bool() -> Seq<u8> {
    seq![98u8, 111u8, 111u8, 108u8]
}

/// `char`
pub open spec fn name_char() -> Seq<u8> {
    seq![99u8, 104u8, 97u8, 114u8]
}

/// `int`
pub open spec fn name_int() -> Seq<u8> {
    seq![105u8, 110u8, 116u8]
}

/// `unsigned`
pub open spec fn name_unsigned() -> Seq<u8> {
    seq![117u8, 110u8, 115u8, 105u8, 103u8, 110u8, 101u8, 100u8]
}

/// `float`
pub open spec fn name_float() -> Seq<u8> {
    seq![102u8, 108u8, 111u8, 97u8, 116u8]
}

/// `double`
pub open spec fn name_double() -> Seq<u8> {
    seq![100u8, 111u8, 117u8, 98u8, 108u8, 101u8]
}

/// `size_t`
pub open spec fn name_size_t() -> Seq<u8> {
    seq![115u8, 105u8, 122u8, 101u8, 95u8, 116u8]
}

/// The primitive a name denotes, if any.
pub open spec fn spec_prim_of(n: Seq<u8>) -> Option<Primitive> {
    if n == name_void() {
        Some(Primitive::Void)
    } else if n == name_bool() {
        Some(Primitive::Bool)
    } else if n == name_char() {
        Some(Primitive::Char)
    } else if n == name_int() {
        Some(Primitive::Int)
    } else if n == name_unsigned() {
        Some(Primitive::Unsigned)
    } else if n == name_float() {
        Some(Primitive::Float)
    } else if n == name_double() {
        Some(Primitive::Double)
    } else if n == name_size_t() {
        Some(Primitive::SizeT)
    } else {
        None
    }
}

// ---- the closed set of generic container shapes ----
/// `std::vector`
pub open spec fn name_vector() -> Seq<u8> {
    seq![115u8, 116u8, 100u8, 58u8, 58u8, 118u8, 101u8, 99u8, 116u8, 111u8, 114u8]
}

/// `cv::Ptr`
pub open spec fn name_cv_ptr() -> Seq<u8> {
    seq![99u8, 118u8, 58u8, 58u8, 80u8, 116u8, 114u8]
}

/// `std::unique_ptr`
pub open spec fn name_unique_ptr() -> Seq<u8> {
    seq![
        115u8, 116u8, 100u8, 58u8, 58u8, 117u8, 110u8, 105u8, 113u8, 117u8, 101u8, 95u8, 112u8,
        116u8, 114u8,
    ]
}

/// `std::weak_ptr`
pub open spec fn name_weak_ptr() -> Seq<u8> {
    seq![115u8, 116u8, 100u8, 58u8, 58u8, 119u8, 101u8, 97u8, 107u8, 95u8, 112u8, 116u8, 114u8]
}

/// `std::pair`
pub open spec fn name_pair() -> Seq<u8> {
    seq![115u8, 116u8, 100u8, 58u8, 58u8, 112u8, 97u8, 105u8, 114u8]
}

/// `std::tuple`
pub open spec fn name_tuple() -> Seq<u8> {
    seq![115u8, 116u8, 100u8, 58u8, 58u8, 116u8, 117u8, 112u8, 108u8, 101u8]
}

pub open spec fn spec_add_const(t: TypeRef) -> TypeRef {
    TypeRef {
        quals: QualStack { is_const: true, ptr_depth: t.quals.ptr_depth, is_ref: t.quals.is_ref },
        kind: t.kind,
    }
}

pub open spec fn spec_add_ptr(t: TypeRef) -> TypeRef {
    TypeRef {
        quals: QualStack {
            is_const: t.quals.is_const,
            ptr_depth: if t.quals.ptr_depth < u64::MAX {
                (t.quals.ptr_depth + 1) as u64
            } else {
                t.quals.ptr_depth
            },
            is_ref: t.quals.is_ref,
        },
        kind: t.kind,
    }
}

pub open spec fn spec_add_ref(t: TypeRef) -> TypeRef {
    TypeRef {
        quals: QualStack { is_const: t.quals.is_const, ptr_depth: t.quals.ptr_depth, is_ref: true },
        kind: t.kind,
    }
}

/// What the resolver answers for a raw type, as a function of the symbol
/// table and the type alone.
pub open spec fn spec_resolve(syms: Seq<SymbolEntry>, raw: RawType) -> TypeRef
    decreases raw,
{
    match raw {
        RawType::Named(n) => TypeRef {
            quals: no_quals(),
            kind: match spec_prim_of(n@) {
                Some(p) => TypeRefKind::Primitive(p),
                None => match spec_lookup_symbol(syms, n@) {
                    Some(s) => if s.1 {
                        TypeRefKind::Enum(s.0)
                    } else {
                        TypeRefKind::Class(s.0)
                    },
                    None => TypeRefKind::Opaque,
                },
            },
        },
        RawType::Const(t) => spec_add_const(spec_resolve(syms, *t)),
        RawType::Pointer(t) => spec_add_ptr(spec_resolve(syms, *t)),
        RawType::Reference(t) => spec_add_ref(spec_resolve(syms, *t)),
        RawType::Template(n, a) => TypeRef {
            quals: no_quals(),
            kind: if n@ == name_vector() {
                TypeRefKind::Vector(Box::new(spec_resolve(syms, *a)))
            } else if n@ == name_cv_ptr() {
                TypeRefKind::SmartPtr(Box::new(spec_resolve(syms, *a)), Ownership::Shared)
            } else if n@ == name_unique_ptr() {
                TypeRefKind::SmartPtr(Box::new(spec_resolve(syms, *a)), Ownership::Exclusive)
            } else if n@ == name_weak_ptr() {
                TypeRefKind::SmartPtr(Box::new(spec_resolve(syms, *a)), Ownership::Weak)
            } else {
                TypeRefKind::Opaque
            },
        },
        RawType::TemplatePair(n, a, b) => TypeRef {
            quals: no_quals(),
            kind: if n@ == name_pair() || n@ == name_tuple() {
                TypeRefKind::Tuple(
                    Box::new(spec_resolve(syms, *a)),
                    Box::new(spec_resolve(syms, *b)),
                )
            } else {
                TypeRefKind::Opaque
            },
        },
        RawType::Function => TypeRef { quals: no_quals(), kind: TypeRefKind::Function },
    }
}

fn prim_of(n: &[u8]) -> (r: Option<Primitive>)
    ensures
        r == spec_prim_of(n@),
{
    let w_void: [u8; 4] = [118, 111, 105, 100];
    let w_bool: [u8; 4] = [98, 111, 111, 108];
    let w_char: [u8; 4] = [99, 104, 97, 114];
    let w_int: [u8; 3] = [105, 110, 116];
    let w_unsigned: [u8; 8] = [117, 110, 115, 105, 103, 110, 101, 100];
    let w_float: [u8; 5] = [102, 108, 111, 97, 116];
    let w_double: [u8; 6] = [100, 111, 117, 98, 108, 101];
    let w_size_t: [u8; 6] = [115, 105, 122, 101, 95, 116];
    proof {
        assert(w_void@ =~= name_void());
        assert(w_bool@ =~= name_bool());
        assert(w_char@ =~= name_char());
        assert(w_int@ =~= name_int());
        assert(w_unsigned@ =~= name_unsigned());
        assert(w_float@ =~= name_float());
        assert(w_double@ =~= name_double());
        assert(w_size_t@ =~= name_size_t());
    }
    if bytes_eq(n, w_void.as_slice()) {
        Some(Primitive::Void)
    } else if bytes_eq(n, w_bool.as_slice()) {
        Some(Primitive::Bool)
    } else if bytes_eq(n, w_char.as_slice()) {
        Some(Primitive::Char)
    } else if bytes_eq(n, w_int.as_slice()) {
        Some(Primitive::Int)
    } else if bytes_eq(n, w_unsigned.as_slice()) {
        Some(Primitive::Unsigned)
    } else if bytes_eq(n, w_float.as_slice()) {
        Some(Primitive::Float)
    } else if bytes_eq(n, w_double.as_slice()) {
        Some(Primitive::Double)
    } else if bytes_eq(n, w_size_t.as_slice()) {
        Some(Primitive::SizeT)
    } else {
        None
    }
}

/// Classifies a raw type against the environment. Pure in the symbol
/// table and the type; recursion is structural, so resolution terminates
/// on every input without an artificial depth limit.
pub fn resolve(env: &GeneratorEnv, raw: &RawType) -> (r: TypeRef)
    ensures
        r == spec_resolve(env.symbols@, *raw),
    decreases *raw,
{
    match raw {
        RawType::Named(n) => {
            let kind = match prim_of(n.as_slice()) {
                Some(p) => TypeRefKind::Primitive(p),
                None => match env.lookup_symbol(n.as_slice()) {
                    Some(s) => if s.1 {
                        TypeRefKind::Enum(s.0)
                    } else {
                        TypeRefKind::Class(s.0)
                    },
                    None => TypeRefKind::Opaque,
                },
            };
            TypeRef { quals: QualStack { is_const: false, ptr_depth: 0, is_ref: false }, kind }
        }
        RawType::Const(t) => {
            let inner = resolve(env, &*t);
            TypeRef {
                quals: QualStack {
                    is_const: true,
                    ptr_depth: inner.quals.ptr_depth,
                    is_ref: inner.quals.is_ref,
                },
                kind: inner.kind,
            }
        }
        RawType::Pointer(t) => {
            let inner = resolve(env, &*t);
            let depth = if inner.quals.ptr_depth < u64::MAX {
                inner.quals.ptr_depth + 1
            } else {
                inner.quals.ptr_depth
            };
            TypeRef {
                quals: QualStack {
                    is_const: inner.quals.is_const,
                    ptr_depth: depth,
                    is_ref: inner.quals.is_ref,
                },
                kind: inner.kind,
            }
        }
        RawType::Reference(t) => {
            let inner = resolve(env, &*t);
            TypeRef {
                quals: QualStack {
                    is_const: inner.quals.is_const,
                    ptr_depth: inner.quals.ptr_depth,
                    is_ref: true,
                },
                kind: inner.kind,
            }
        }
        RawType::Template(n, a) => {
            let w_vector: [u8; 11] = [115, 116, 100, 58, 58, 118, 101, 99, 116, 111, 114];
            let w_cv_ptr: [u8; 7] = [99, 118, 58, 58, 80, 116, 114];
            let w_unique: [u8; 15] = [
                115, 116, 100, 58, 58, 117, 110, 105, 113, 117, 101, 95, 112, 116, 114,
            ];
            let w_weak: [u8; 13] = [115, 116, 100, 58, 58, 119, 101, 97, 107, 95, 112, 116, 114];
            proof {
                assert(w_vector@ =~= name_vector());
                assert(w_cv_ptr@ =~= name_cv_ptr());
                assert(w_unique@ =~= name_unique_ptr());
                assert(w_weak@ =~= name_weak_ptr());
            }
            let kind = if bytes_eq(n.as_slice(), w_vector.as_slice()) {
                TypeRefKind::Vector(Box::new(resolve(env, &*a)))
            } else if bytes_eq(n.as_slice(), w_cv_ptr.as_slice()) {
                TypeRefKind::SmartPtr(Box::new(resolve(env, &*a)), Ownership::Shared)
            } else if bytes_eq(n.as_slice(), w_unique.as_slice()) {
                TypeRefKind::SmartPtr(Box::new(resolve(env, &*a)), Ownership::Exclusive)
            } else if bytes_eq(n.as_slice(), w_weak.as_slice()) {
                TypeRefKind::SmartPtr(Box::new(resolve(env, &*a)), Ownership::Weak)
            } else {
                TypeRefKind::Opaque
            };
            TypeRef { quals: QualStack { is_const: false, ptr_depth: 0, is_ref: false }, kind }
        }
        RawType::TemplatePair(n, a, b) => {
            let w_pair: [u8; 9] = [115, 116, 100, 58, 58, 112, 97, 105, 114];
            let w_tuple: [u8; 10] = [115, 116, 100, 58, 58, 116, 117, 112, 108, 101];
            proof {
                assert(w_pair@ =~= name_pair());
                assert(w_tuple@ =~= name_tuple());
            }
            let kind = if bytes_eq(n.as_slice(), w_pair.as_slice()) || bytes_eq(
                n.as_slice(),
                w_tuple.as_slice(),
            ) {
                TypeRefKind::Tuple(Box::new(resolve(env, &*a)), Box::new(resolve(env, &*b)))
            } else {
                TypeRefKind::Opaque
            };
            TypeRef { quals: QualStack { is_const: false, ptr_depth: 0, is_ref: false }, kind }
        }
        RawType::Function => TypeRef {
            quals: QualStack { is_const: false, ptr_depth: 0, is_ref: false },
            kind: TypeRefKind::Function,
        },
    }
}

/// Whether an unsupported shape hides anywhere inside the type.
pub open spec fn spec_has_opaque(t: TypeRef) -> bool
    decreases t,
{
    match t.kind {
        TypeRefKind::Opaque => true,
        TypeRefKind::Vector(b) => spec_has_opaque(*b),
        TypeRefKind::SmartPtr(b, _) => spec_has_opaque(*b),
        TypeRefKind::Tuple(a, b) => spec_has_opaque(*a) || spec_has_opaque(*b),
        _ => false,
    }
}

/// Reports whether the type, or any type nested in it, is `Opaque` — the
/// test that decides a declaration's graceful skip.
pub fn has_opaque(t: &TypeRef) -> (r: bool)
    ensures
        r == spec_has_opaque(*t),
    decreases *t,
{
    match &t.kind {
        TypeRefKind::Opaque => true,
        TypeRefKind::Vector(b) => has_opaque(&*b),
        TypeRefKind::SmartPtr(b, _) => has_opaque(&*b),
        TypeRefKind::Tuple(a, b) => has_opaque(&*a) || has_opaque(&*b),
        _ => false,
    }
}

/// A compact spelling of a type, used as the deterministic overload
/// disambiguator: one tag byte per kind, container tags followed by their
/// element spellings.
pub open spec fn spec_summary(t: TypeRef) -> Seq<u8>
    decreases t,
{
    match t.kind {
        TypeRefKind::Primitive(_) => seq![112u8],
        TypeRefKind::Class(_) => seq![99u8],
        TypeRefKind::Enum(_) => seq![101u8],
        TypeRefKind::Function => seq![102u8],
        TypeRefKind::Vector(b) => seq![118u8] + spec_summary(*b),
        TypeRefKind::SmartPtr(b, _) => seq![115u8] + spec_summary(*b),
        TypeRefKind::Tuple(a, b) => seq![116u8] + spec_summary(*a) + spec_summary(*b),
        TypeRefKind::Opaque => seq![111u8],
    }
}

/// Appends the type's summary spelling to `out`.
pub fn push_summary(t: &TypeRef, out: &mut Vec<u8>)
    ensures
        final(out)@ == old(out)@ + spec_summary(*t),
    decreases *t,
{
    match &t.kind {
        TypeRefKind::Primitive(_) => {
            out.push(112);
            proof {
                assert(out@ =~= old(out)@ + spec_summary(*t));
            }
        }
        TypeRefKind::Class(_) => {
            out.push(99);
            proof {
                assert(out@ =~= old(out)@ + spec_summary(*t));
            }
        }
        TypeRefKind::Enum(_) => {
            out.push(101);
            proof {
                assert(out@ =~= old(out)@ + spec_summary(*t));
            }
        }
        TypeRefKind::Function => {
            out.push(102);
            proof {
                assert(out@ =~= old(out)@ + spec_summary(*t));
            }
        }
        TypeRefKind::Vector(b) => {
            out.push(118);
            push_summary(&*b, out);
            proof {
                assert(out@ =~= old(out)@ + spec_summary(*t));
            }
        }
        TypeRefKind::SmartPtr(b, _) => {
            out.push(115);
            push_summary(&*b, out);
            proof {
                assert(out@ =~= old(out)@ + spec_summary(*t));
            }
        }
        TypeRefKind::Tuple(a, b) => {
            out.push(116);
            push_summary(&*a, out);
            push_summary(&*b, out);
            proof {
                assert(out@ =~= old(out)@ + spec_summary(*t));
            }
        }
        TypeRefKind::Opaque => {
            out.push(111);
            proof {
                assert(out@ =~= old(out)@ + spec_summary(*t));
            }
        }
    }
}

/// The identity keys of every class and enum the type refers to.
pub open spec fn spec_deps(t: TypeRef) -> Seq<u64>
    decreases t,
{
    match t.kind {
        TypeRefKind::Class(k) => seq![k],
        TypeRefKind::Enum(k) => seq![k],
        TypeRefKind::Vector(b) => spec_deps(*b),
        TypeRefKind::SmartPtr(b, _) => spec_deps(*b),
        TypeRefKind::Tuple(a, b) => spec_deps(*a) + spec_deps(*b),
        _ => Seq::empty(),
    }
}

/// Appends the identity keys the type depends on to `out`.
pub fn push_deps(t: &TypeRef, out: &mut Vec<u64>)
    ensures
        final(out)@ == old(out)@ + spec_deps(*t),
    decreases *t,
{
    match &t.kind {
        TypeRefKind::Class(k) => {
            out.push(*k);
            proof {
                assert(out@ =~= old(out)@ + spec_deps(*t));
            }
        }
        TypeRefKind::Enum(k) => {
            out.push(*k);
            proof {
                assert(out@ =~= old(out)@ + spec_deps(*t));
            }
        }
        TypeRefKind::Vector(b) => {
            push_deps(&*b, out);
            proof {
                assert(out@ =~= old(out)@ + spec_deps(*t));
            }
        }
        TypeRefKind::SmartPtr(b, _) => {
            push_deps(&*b, out);
            proof {
                assert(out@ =~= old(out)@ + spec_deps(*t));
            }
        }
        TypeRefKind::Tuple(a, b) => {
            push_deps(&*a, out);
            push_deps(&*b, out);
            proof {
                assert(out@ =~= old(out)@ + spec_deps(*t));
            }
        }
        _ => {
            proof {
                assert(out@ =~= old(out)@ + spec_deps(*t));
            }
        }
    }
}

} // verus!
