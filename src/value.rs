//! Value trees: the borrowed form that the parser builds, the owned form, and the model
//! that both are read as.
use vstd::prelude::*;
use vstd::string::StringSliceAdditionalSpecFns;
use vstd::utf8::encode_utf8;

verus! {

/// A value tree, with every piece of text as its bytes.
/// An object is a list of entries with distinct keys.
pub enum Model {
    Str(Seq<u8>),
    Int(int),
    Num(Seq<u8>),
    Bool(bool),
    Arr(Seq<Model>),
    Obj(Seq<(Seq<u8>, Model)>),
    Ref(Seq<u8>),
    Null,
}

/// `m` with `k` bound to `v`: an entry with key `k` is replaced in place, or else the
/// entry is added at the end.
pub open spec fn obj_insert(m: Seq<(Seq<u8>, Model)>, k: Seq<u8>, v: Model) -> Seq<
    (Seq<u8>, Model),
> {
    if exists|j: int| 0 <= j < m.len() && #[trigger] m[j].0 == k {
        let j = choose|j: int| 0 <= j < m.len() && #[trigger] m[j].0 == k;
        m.update(j, (k, v))
    } else {
        m.push((k, v))
    }
}

pub open spec fn keys_distinct(m: Seq<(Seq<u8>, Model)>) -> bool {
    forall|i: int, j: int| 0 <= i < j < m.len() ==> m[i].0 != m[j].0
}

/// A number is kept as the text of its literal.
#[derive(Debug, PartialEq)]
pub enum ValueRef<'a> {
    String(&'a str),
    Integer(i64),
    Number(&'a str),
    Boolean(bool),
    Array(Vec<ValueRef<'a>>),
    Object(Vec<(&'a str, ValueRef<'a>)>),
    Reference(&'a str),
    Null,
}

/// A value that owns its text.
#[derive(Debug, PartialEq)]
pub enum Value {
    String(String),
    Integer(i64),
    Number(String),
    Boolean(bool),
    Array(Vec<Value>),
    Object(Vec<(String, Value)>),
    Reference(String),
    Null,
}

impl<'a> ValueRef<'a> {
    pub open spec fn model(&self) -> Model
        decreases self,
    {
        match self {
            ValueRef::String(s) => Model::Str(s.spec_bytes()),
            ValueRef::Integer(i) => Model::Int(*i as int),
            ValueRef::Number(s) => Model::Num(s.spec_bytes()),
            ValueRef::Boolean(b) => Model::Bool(*b),
            ValueRef::Array(v) => Model::Arr(Self::models(v@)),
            ValueRef::Object(v) => Model::Obj(Self::entry_models(v@)),
            ValueRef::Reference(s) => Model::Ref(s.spec_bytes()),
            ValueRef::Null => Model::Null,
        }
    }

    pub open spec fn models(s: Seq<ValueRef<'a>>) -> Seq<Model>
        decreases s,
    {
        if s.len() == 0 {
            Seq::empty()
        } else {
            Self::models(s.drop_last()).push(s.last().model())
        }
    }

    pub open spec fn entry_models(s: Seq<(&'a str, ValueRef<'a>)>) -> Seq<(Seq<u8>, Model)>
        decreases s,
    {
        if s.len() == 0 {
            Seq::empty()
        } else {
            Self::entry_models(s.drop_last()).push((s.last().0.spec_bytes(), s.last().1.model()))
        }
    }
}

impl<'a> ValueRef<'a> {
    /// An owned copy of this tree: every string is copied, every child converted.
    pub fn to_value(self) -> (r: Value)
        ensures
            r.model() == self.model(),
    {
        self.owned()
    }

    fn owned(&self) -> (r: Value)
        ensures
            r.model() == self.model(),
        decreases self,
    {
        match self {
            ValueRef::String(x) => Value::String(str::to_owned(x)),
            ValueRef::Integer(x) => Value::Integer(*x),
            ValueRef::Number(x) => Value::Number(str::to_owned(x)),
            ValueRef::Boolean(x) => Value::Boolean(*x),
            ValueRef::Array(items) => {
                let mut out: Vec<Value> = Vec::new();
                let mut i: usize = 0;
                proof {
                    lemma_models_index(items@);
                }
                while i < items.len()
                    invariant
                        self is Array && *items == self->Array_0,
                        0 <= i <= items@.len(),
                        out@.len() == i,
                        ValueRef::models(items@).len() == items@.len(),
                        forall|k: int|
                            0 <= k < items@.len() ==> #[trigger] ValueRef::models(items@)[k]
                                == items@[k].model(),
                        forall|k: int| 0 <= k < i ==> #[trigger] out@[k].model() == items@[k].model(),
                    decreases items@.len() - i,
                {
                    proof {
                        assert(decreases_to!(*items => items[i as int]));
                        assert(decreases_to!(*self => items[i as int]));
                    }
                    let v = items[i].owned();
                    out.push(v);
                    i = i + 1;
                }
                proof {
                    lemma_owned_models_index(out@);
                    assert(Value::models(out@) =~= ValueRef::models(items@));
                }
                Value::Array(out)
            },
            ValueRef::Object(entries) => {
                let mut out: Vec<(String, Value)> = Vec::new();
                let mut i: usize = 0;
                proof {
                    lemma_entry_models_index(entries@);
                }
                while i < entries.len()
                    invariant
                        self is Object && *entries == self->Object_0,
                        0 <= i <= entries@.len(),
                        out@.len() == i,
                        ValueRef::entry_models(entries@).len() == entries@.len(),
                        forall|k: int|
                            0 <= k < entries@.len() ==> #[trigger] ValueRef::entry_models(
                                entries@,
                            )[k] == (entries@[k].0.spec_bytes(), entries@[k].1.model()),
                        forall|k: int|
                            0 <= k < i ==> encode_utf8(#[trigger] out@[k].0@)
                                == entries@[k].0.spec_bytes() && out@[k].1.model()
                                == entries@[k].1.model(),
                    decreases entries@.len() - i,
                {
                    let key = str::to_owned(entries[i].0);
                    proof {
                        assert(decreases_to!(*entries => entries[i as int]));
                        assert(decreases_to!(entries[i as int] => entries[i as int].1));
                        assert(decreases_to!(*self => entries[i as int].1));
                    }
                    let v = entries[i].1.owned();
                    out.push((key, v));
                    i = i + 1;
                }
                proof {
                    lemma_owned_entry_models_index(out@);
                    assert(Value::entry_models(out@) =~= ValueRef::entry_models(entries@));
                }
                Value::Object(out)
            },
            ValueRef::Reference(x) => Value::Reference(str::to_owned(x)),
            ValueRef::Null => Value::Null,
        }
    }
}

proof fn lemma_owned_models_index(s: Seq<Value>)
    ensures
        Value::models(s).len() == s.len(),
        forall|i: int| 0 <= i < s.len() ==> #[trigger] Value::models(s)[i] == s[i].model(),
    decreases s.len(),
{
    if s.len() > 0 {
        lemma_owned_models_index(s.drop_last());
    }
}

proof fn lemma_owned_entry_models_index(s: Seq<(String, Value)>)
    ensures
        Value::entry_models(s).len() == s.len(),
        forall|i: int|
            0 <= i < s.len() ==> #[trigger] Value::entry_models(s)[i] == (
                encode_utf8(s[i].0@),
                s[i].1.model(),
            ),
    decreases s.len(),
{
    if s.len() > 0 {
        lemma_owned_entry_models_index(s.drop_last());
    }
}

/// The model of a list of values, element by element.
pub proof fn lemma_models_index<'a>(s: Seq<ValueRef<'a>>)
    ensures
        ValueRef::models(s).len() == s.len(),
        forall|i: int| 0 <= i < s.len() ==> #[trigger] ValueRef::models(s)[i] == s[i].model(),
    decreases s.len(),
{
    if s.len() > 0 {
        lemma_models_index(s.drop_last());
    }
}

/// The model of a list of entries, entry by entry.
pub proof fn lemma_entry_models_index<'a>(s: Seq<(&'a str, ValueRef<'a>)>)
    ensures
        ValueRef::entry_models(s).len() == s.len(),
        forall|i: int|
            0 <= i < s.len() ==> #[trigger] ValueRef::entry_models(s)[i] == (
                s[i].0.spec_bytes(),
                s[i].1.model(),
            ),
    decreases s.len(),
{
    if s.len() > 0 {
        lemma_entry_models_index(s.drop_last());
    }
}

impl Value {
    pub open spec fn model(&self) -> Model
        decreases self,
    {
        match self {
            Value::String(s) => Model::Str(encode_utf8(s@)),
            Value::Integer(i) => Model::Int(*i as int),
            Value::Number(s) => Model::Num(encode_utf8(s@)),
            Value::Boolean(b) => Model::Bool(*b),
            Value::Array(v) => Model::Arr(Self::models(v@)),
            Value::Object(v) => Model::Obj(Self::entry_models(v@)),
            Value::Reference(s) => Model::Ref(encode_utf8(s@)),
            Value::Null => Model::Null,
        }
    }

    pub open spec fn models(s: Seq<Value>) -> Seq<Model>
        decreases s,
    {
        if s.len() == 0 {
            Seq::empty()
        } else {
            Self::models(s.drop_last()).push(s.last().model())
        }
    }

    pub open spec fn entry_models(s: Seq<(String, Value)>) -> Seq<(Seq<u8>, Model)>
        decreases s,
    {
        if s.len() == 0 {
            Seq::empty()
        } else {
            Self::entry_models(s.drop_last()).push((encode_utf8(s.last().0@), s.last().1.model()))
        }
    }
}

} // verus!
