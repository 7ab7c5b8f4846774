//! The data model: dynamic values of registered record types, the runtime
//! type descriptors (shapes) that drive the schema-based codec, and the type
//! registry that assigns every registered record type its tag byte.

use vstd::prelude::*;

verus! {

broadcast use
    vstd::seq::axiom_seq_index_decreases,
    vstd::seq::axiom_seq_subrange_decreases,
    vstd::std_specs::vec::axiom_vec_decreases_to_view;

/// The shape of an encodable value, as a runtime type descriptor.
///
/// A field of a registered record type is *primitive* (fixed-width, encoded
/// verbatim) exactly when its shape is [`Shape::Unit`], [`Shape::Prim`], or a
/// [`Shape::Pair`] of primitives; every other field is *structural* and is
/// replaced in its parent's encoding by the 8-byte content id of its own
/// encoding.
#[derive(Debug, PartialEq, Eq)]
pub enum Shape {
    /// The empty value; encodes to zero bytes.
    Unit,
    /// A fixed-width primitive (numeric, boolean, array or tuple of such),
    /// held as its big-endian bytes and encoded verbatim; the payload is the
    /// byte width.
    Prim(usize),
    /// A registered record type, named by its tag byte.
    Record(u8),
    /// A pair; encodes its two components in sequence, with no tag layer.
    Pair(Box<Shape>, Box<Shape>),
    /// An optional value; encodes as a discriminator byte (0 = absent,
    /// 1 = present followed by the inner encoding).
    Optional(Box<Shape>),
}

/// The descriptor of one registered record type: its fields' shapes, in
/// declaration order.
#[derive(Debug, PartialEq, Eq)]
pub struct TypeDesc {
    pub fields: Vec<Shape>,
}

/// The type registry: descriptors for every registered record type, in the
/// order they were registered.  The tag of a type is its position in this
/// list, so the registry is meaningful only up to 256 entries.
#[derive(Debug)]
pub struct Registry {
    pub types: Vec<TypeDesc>,
}

impl View for Registry {
    type V = Seq<Seq<Shape>>;

    open spec fn view(&self) -> Seq<Seq<Shape>> {
        Seq::new(self.types@.len(), |i: int| self.types@[i].fields@)
    }
}

/// A dynamic value of the data model.  Heap indirection (`Box`) is
/// transparent: it delegates encoding and decoding to the contained value and
/// adds no layer of its own.
#[derive(Debug, PartialEq)]
pub enum Value {
    /// The empty value.
    Unit,
    /// A fixed-width primitive, as its big-endian bytes.
    Prim(Vec<u8>),
    /// A value of the registered record type with the given tag byte, with
    /// one entry per declared field, in declaration order.
    Record(u8, Vec<Value>),
    /// A pair of values.
    Pair(Box<Value>, Box<Value>),
    /// An optional value.
    Maybe(Option<Box<Value>>),
}

/// The mathematical model of a [`Value`]; contracts speak of this type.
#[verifier::ext_equal]
pub enum ValModel {
    Unit,
    Prim(Seq<u8>),
    Record(u8, Seq<ValModel>),
    Pair(Box<ValModel>, Box<ValModel>),
    Maybe(Option<Box<ValModel>>),
}

/// The model of one value.
pub open spec fn model_of(v: Value) -> ValModel
    decreases v, 0int,
{
    match v {
        Value::Unit => ValModel::Unit,
        Value::Prim(b) => ValModel::Prim(b@),
        Value::Record(t, fs) => ValModel::Record(t, models_of(fs@)),
        Value::Pair(a, b) => ValModel::Pair(Box::new(model_of(*a)), Box::new(model_of(*b))),
        Value::Maybe(o) => match o {
            Some(x) => ValModel::Maybe(Some(Box::new(model_of(*x)))),
            None => ValModel::Maybe(None),
        },
    }
}

/// The models of a sequence of values, element by element.
pub open spec fn models_of(s: Seq<Value>) -> Seq<ValModel>
    decreases s, 1int,
{
    if s.len() == 0 {
        Seq::empty()
    } else {
        models_of(s.drop_last()).push(model_of(s.last()))
    }
}

/// [`models_of`] maps the elements one for one.
pub proof fn lemma_models_of(s: Seq<Value>)
    ensures
        models_of(s).len() == s.len(),
        forall|i: int| 0 <= i < s.len() ==> #[trigger] models_of(s)[i] == model_of(s[i]),
    decreases s,
{
    if s.len() > 0 {
        lemma_models_of(s.drop_last());
    }
}

impl View for Value {
    type V = ValModel;

    open spec fn view(&self) -> ValModel {
        model_of(*self)
    }
}

/// Whether a shape is primitive: such a value is kept verbatim inside its
/// parent record's encoding instead of being decomposed into a blob of its
/// own.
pub open spec fn shape_primitive(s: Shape) -> bool
    decreases s,
{
    match s {
        Shape::Unit => true,
        Shape::Prim(_) => true,
        Shape::Record(_) => false,
        Shape::Pair(a, b) => shape_primitive(*a) && shape_primitive(*b),
        Shape::Optional(_) => false,
    }
}

/// Whether a value is primitive; agrees with [`shape_primitive`] on every
/// value that matches the shape.
pub open spec fn model_primitive(m: ValModel) -> bool
    decreases m,
{
    match m {
        ValModel::Unit => true,
        ValModel::Prim(_) => true,
        ValModel::Record(_, _) => false,
        ValModel::Pair(a, b) => model_primitive(*a) && model_primitive(*b),
        ValModel::Maybe(_) => false,
    }
}

/// Whether a value matches a shape under the given registry: the kinds line
/// up, primitive bytes have the declared width, record tags agree and are
/// registered, and every record field matches its declared shape.
pub open spec fn matches_shape(m: ValModel, s: Shape, reg: Seq<Seq<Shape>>) -> bool
    decreases m, 0int,
{
    match (m, s) {
        (ValModel::Unit, Shape::Unit) => true,
        (ValModel::Prim(b), Shape::Prim(w)) => b.len() == w,
        (ValModel::Record(t, fs), Shape::Record(t2)) => t == t2 && t < reg.len()
            && matches_fields(fs, reg[t as int], reg),
        (ValModel::Pair(a, b), Shape::Pair(sa, sb)) => matches_shape(*a, *sa, reg)
            && matches_shape(*b, *sb, reg),
        (ValModel::Maybe(o), Shape::Optional(si)) => match o {
            Some(x) => matches_shape(*x, *si, reg),
            None => true,
        },
        _ => false,
    }
}

/// Whether a record's fields match its declared shapes, field by field.
pub open spec fn matches_fields(fs: Seq<ValModel>, shapes: Seq<Shape>, reg: Seq<Seq<Shape>>) -> bool
    decreases fs, 1int,
{
    if fs.len() != shapes.len() {
        false
    } else if fs.len() == 0 {
        true
    } else {
        matches_fields(fs.drop_last(), shapes.drop_last(), reg)
            && matches_shape(fs.last(), shapes.last(), reg)
    }
}

/// Whether a value is well formed under the registry: every record it
/// contains is of a registered type and its fields match that type's declared
/// shapes.  Encoding is specified for well-formed values; using an
/// unregistered type is a construction-time contract violation.
pub open spec fn wf_model(m: ValModel, reg: Seq<Seq<Shape>>) -> bool
    decreases m, 1int,
{
    match m {
        ValModel::Unit => true,
        ValModel::Prim(_) => true,
        ValModel::Record(t, fs) => matches_shape(m, Shape::Record(t), reg),
        ValModel::Pair(a, b) => wf_model(*a, reg) && wf_model(*b, reg),
        ValModel::Maybe(o) => match o {
            Some(x) => wf_model(*x, reg),
            None => true,
        },
    }
}

/// Whether a shape mentions only registered record tags.
pub open spec fn shape_wf(s: Shape, reg: Seq<Seq<Shape>>) -> bool
    decreases s,
{
    match s {
        Shape::Unit => true,
        Shape::Prim(_) => true,
        Shape::Record(t) => t < reg.len(),
        Shape::Pair(a, b) => shape_wf(*a, reg) && shape_wf(*b, reg),
        Shape::Optional(si) => shape_wf(*si, reg),
    }
}

/// Whether a registry is closed: every shape a descriptor mentions refers
/// only to registered tags.  A registry is meaningful only with at most 256
/// types, one per possible tag byte.
pub open spec fn registry_wf(reg: Seq<Seq<Shape>>) -> bool {
    &&& reg.len() <= 256
    &&& forall|t: int, i: int| 0 <= t < reg.len() && 0 <= i < reg[t].len()
        ==> #[trigger] shape_wf(reg[t][i], reg)
}

/// Extending matching field lists by one matching field.
pub proof fn lemma_matches_fields_push(
    fs: Seq<ValModel>,
    shapes: Seq<Shape>,
    m: ValModel,
    s: Shape,
    reg: Seq<Seq<Shape>>,
)
    requires
        fs.len() == shapes.len(),
    ensures
        matches_fields(fs.push(m), shapes.push(s), reg) == (matches_fields(fs, shapes, reg)
            && matches_shape(m, s, reg)),
{
    assert(fs.push(m).drop_last() =~= fs);
    assert(shapes.push(s).drop_last() =~= shapes);
    assert(fs.push(m).last() == m);
    assert(shapes.push(s).last() == s);
}

/// In matching field lists, each field matches its shape.
pub proof fn lemma_matches_fields_elem(
    fs: Seq<ValModel>,
    shapes: Seq<Shape>,
    reg: Seq<Seq<Shape>>,
    i: int,
)
    requires
        matches_fields(fs, shapes, reg),
        0 <= i < fs.len(),
    ensures
        matches_shape(fs[i], shapes[i], reg),
    decreases fs.len(),
{
    if i == fs.len() - 1 {
    } else {
        lemma_matches_fields_elem(fs.drop_last(), shapes.drop_last(), reg, i);
        assert(fs.drop_last()[i] == fs[i]);
        assert(shapes.drop_last()[i] == shapes[i]);
    }
}

/// Decides whether a value matches a shape under the registry.
#[verifier::loop_isolation(false)]
pub fn value_matches_shape(v: &Value, s: &Shape, reg: &Registry) -> (r: bool)
    ensures
        r == matches_shape(v@, *s, reg@),
    decreases *v,
{
    match (v, s) {
        (Value::Unit, Shape::Unit) => true,
        (Value::Prim(b), Shape::Prim(w)) => b.len() == *w,
        (Value::Record(t, fs), Shape::Record(t2)) => {
            if *t != *t2 {
                return false;
            }
            if (*t as usize) >= reg.types.len() {
                return false;
            }
            let shapes = &reg.types[*t as usize].fields;
            if fs.len() != shapes.len() {
                proof {
                    lemma_models_of(fs@);
                    assert(v@ == ValModel::Record(*t, models_of(fs@)));
                    assert(reg@[*t as int] == shapes@);
                    assert(models_of(fs@).len() == fs@.len());
                    assert(!matches_fields(models_of(fs@), reg@[*t as int], reg@));
                }
                return false;
            }
            let ghost models = models_of(fs@);
            proof {
                lemma_models_of(fs@);
                assert(reg@[*t as int] == shapes@);
                assert(models.take(0) =~= Seq::<ValModel>::empty());
                assert(shapes@.take(0) =~= Seq::<Shape>::empty());
            }
            let n = fs.len();
            let mut i: usize = 0;
            while i < n
                invariant
                    i <= n,
                    n == fs@.len() == shapes@.len(),
                    models == models_of(fs@),
                    models.len() == n,
                    forall|k: int| 0 <= k < n ==> #[trigger] models[k] == fs@[k]@,
                    matches_fields(models.take(i as int), shapes@.take(i as int), reg@),
                decreases n - i,
            {
                proof {
                    assert(decreases_to!(*v => *fs));
                    assert(decreases_to!(*fs => fs@[i as int]));
                }
                if !value_matches_shape(&fs[i], &shapes[i], reg) {
                    proof {
                        if matches_fields(models, shapes@, reg@) {
                            lemma_matches_fields_elem(models, shapes@, reg@, i as int);
                        }
                    }
                    return false;
                }
                proof {
                    assert(models.take(i + 1) =~= models.take(i as int).push(models[i as int]));
                    assert(shapes@.take(i + 1) =~= shapes@.take(i as int).push(
                        shapes@[i as int]));
                    lemma_matches_fields_push(models.take(i as int), shapes@.take(i as int),
                        models[i as int], shapes@[i as int], reg@);
                }
                i = i + 1;
            }
            proof {
                assert(models.take(n as int) =~= models);
                assert(shapes@.take(n as int) =~= shapes@);
            }
            true
        },
        (Value::Pair(a, b), Shape::Pair(sa, sb)) => {
            value_matches_shape(a, sa, reg) && value_matches_shape(b, sb, reg)
        },
        (Value::Maybe(o), Shape::Optional(si)) => match o {
            None => true,
            Some(x) => value_matches_shape(x, si, reg),
        },
        _ => false,
    }
}

/// Decides whether a value is well formed under the registry: every record
/// it contains is of a registered type with fields as declared.  Callers use
/// this to surface a registry violation before storing a value.
pub fn value_wf(v: &Value, reg: &Registry) -> (r: bool)
    ensures
        r == wf_model(v@, reg@),
    decreases *v,
{
    match v {
        Value::Unit => true,
        Value::Prim(_) => true,
        Value::Record(t, _) => {
            let s = Shape::Record(*t);
            value_matches_shape(v, &s, reg)
        },
        Value::Pair(a, b) => value_wf(a, reg) && value_wf(b, reg),
        Value::Maybe(o) => match o {
            None => true,
            Some(x) => value_wf(x, reg),
        },
    }
}

/// Decides whether a shape is primitive.
pub fn shape_is_primitive(s: &Shape) -> (r: bool)
    ensures
        r == shape_primitive(*s),
    decreases *s,
{
    match s {
        Shape::Unit => true,
        Shape::Prim(_) => true,
        Shape::Record(_) => false,
        Shape::Pair(a, b) => shape_is_primitive(a) && shape_is_primitive(b),
        Shape::Optional(_) => false,
    }
}

/// Decides whether a value is primitive.
pub fn value_is_primitive(v: &Value) -> (r: bool)
    ensures
        r == model_primitive(v@),
    decreases *v,
{
    match v {
        Value::Unit => true,
        Value::Prim(_) => true,
        Value::Record(_, _) => false,
        Value::Pair(a, b) => value_is_primitive(a) && value_is_primitive(b),
        Value::Maybe(_) => false,
    }
}

} // verus!
