use vstd::prelude::*;

use crate::value::{inserted, Value, ValueMap};

verus! {

/// A fluent builder for an array value: elements are collected in order
/// and `unwrap` turns them into the finished `Value`.
pub struct ArrayBuilder {
    array: Vec<Value>,
}

/// A fluent builder for an object value: entries are collected with the
/// map's insertion rule and `unwrap` turns them into the finished `Value`.
pub struct ObjectBuilder {
    object: ValueMap,
}

impl ArrayBuilder {
    /// The elements collected so far, in order.
    pub closed spec fn items(self) -> Seq<Value> {
        self.array@
    }

    /// Start an empty array.
    pub fn new() -> (r: ArrayBuilder)
        ensures
            r.items() == Seq::<Value>::empty(),
    {
        ArrayBuilder { array: Vec::new() }
    }

    /// Finish: the collected elements as an array value.
    pub fn unwrap(self) -> (r: Value)
        ensures
            r matches Value::Array(a) && a@ == self.items(),
    {
        Value::Array(self.array)
    }

    /// Append one element.
    pub fn push(self, v: Value) -> (r: ArrayBuilder)
        ensures
            r.items() == self.items().push(v),
    {
        let mut this = self;
        this.array.push(v);
        this
    }

    /// Run a nested builder from empty and append the array it produces.
    pub fn push_array<F: FnOnce(ArrayBuilder) -> ArrayBuilder>(self, f: F) -> (r: ArrayBuilder)
        requires
            forall|b: ArrayBuilder|
                b.items() == Seq::<Value>::empty() ==> #[trigger] call_requires(f, (b,)),
        ensures
            exists|b1: ArrayBuilder|
                {
                    &&& #[trigger] call_ensures_on_empty_array(f, b1)
                    &&& exists|inner: Vec<Value>|
                        inner@ == b1.items() && r.items() == self.items().push(
                            Value::Array(inner),
                        )
                },
    {
        let builder = ArrayBuilder::new();
        let ghost b0 = builder;
        let built = f(builder);
        let ghost b1 = built;
        let v = built.unwrap();
        let ghost gv = v;
        let mut this = self;
        this.array.push(v);
        proof {
            assert(call_ensures(f, (b0,), b1));
            assert(call_ensures_on_empty_array(f, b1));
            match gv {
                Value::Array(ga) => {
                    assert(ga@ == b1.items() && this.items() == self.items().push(
                        Value::Array(ga),
                    ));
                },
                _ => {
                    assert(false);
                },
            }
        }
        this
    }

    /// Run a nested object builder from empty and append the object it
    /// produces.
    pub fn push_object<F: FnOnce(ObjectBuilder) -> ObjectBuilder>(self, f: F) -> (r: ArrayBuilder)
        requires
            forall|b: ObjectBuilder|
                b.pairs() == Seq::<(String, Value)>::empty() ==> #[trigger] call_requires(f, (b,)),
        ensures
            exists|b1: ObjectBuilder|
                {
                    &&& #[trigger] call_ensures_on_empty_object(f, b1)
                    &&& exists|inner: ValueMap|
                        inner.pairs() == b1.pairs() && r.items() == self.items().push(
                            Value::Object(inner),
                        )
                },
    {
        let builder = ObjectBuilder::new();
        let ghost b0 = builder;
        let built = f(builder);
        let ghost b1 = built;
        let v = built.unwrap();
        let ghost gv = v;
        let mut this = self;
        this.array.push(v);
        proof {
            assert(call_ensures(f, (b0,), b1));
            assert(call_ensures_on_empty_object(f, b1));
            match gv {
                Value::Object(gm) => {
                    assert(gm.pairs() == b1.pairs() && this.items() == self.items().push(
                        Value::Object(gm),
                    ));
                },
                _ => {
                    assert(false);
                },
            }
        }
        this
    }
}

/// Whether `out` is a possible result of running `f` on an empty object
/// builder.
pub open spec fn call_ensures_on_empty_object<F: FnOnce(ObjectBuilder) -> ObjectBuilder>(
    f: F,
    out: ObjectBuilder,
) -> bool {
    exists|b0: ObjectBuilder|
        b0.pairs() == Seq::<(String, Value)>::empty() && #[trigger] call_ensures(f, (b0,), out)
}

/// Whether `out` is a possible result of running `f` on an empty array
/// builder.
pub open spec fn call_ensures_on_empty_array<F: FnOnce(ArrayBuilder) -> ArrayBuilder>(
    f: F,
    out: ArrayBuilder,
) -> bool {
    exists|b0: ArrayBuilder|
        b0.items() == Seq::<Value>::empty() && #[trigger] call_ensures(f, (b0,), out)
}

impl ObjectBuilder {
    /// The entries collected so far, in insertion order.
    pub closed spec fn pairs(self) -> Seq<(String, Value)> {
        self.object.pairs()
    }

    /// Each collected key occurs at most once.
    pub closed spec fn wf(self) -> bool {
        self.object.wf()
    }

    /// Start an empty object.
    pub fn new() -> (r: ObjectBuilder)
        ensures
            r.wf(),
            r.pairs() == Seq::<(String, Value)>::empty(),
    {
        ObjectBuilder { object: ValueMap::new() }
    }

    /// Finish: the collected entries as an object value.
    pub fn unwrap(self) -> (r: Value)
        ensures
            r matches Value::Object(m) && m.pairs() == self.pairs(),
    {
        Value::Object(self.object)
    }

    /// Insert one entry under `key`, with the map's insertion rule.
    pub fn insert(self, key: String, v: Value) -> (r: ObjectBuilder)
        requires
            self.wf(),
        ensures
            r.wf(),
            r.pairs() == inserted(self.pairs(), key, v),
    {
        let mut this = self;
        this.object.insert(key, v);
        this
    }

    /// Run a nested array builder from empty and insert the array it
    /// produces under `key`.
    pub fn insert_array<F: FnOnce(ArrayBuilder) -> ArrayBuilder>(
        self,
        key: String,
        f: F,
    ) -> (r: ObjectBuilder)
        requires
            self.wf(),
            forall|b: ArrayBuilder|
                b.items() == Seq::<Value>::empty() ==> #[trigger] call_requires(f, (b,)),
        ensures
            r.wf(),
            exists|b1: ArrayBuilder|
                {
                    &&& #[trigger] call_ensures_on_empty_array(f, b1)
                    &&& exists|inner: Vec<Value>|
                        inner@ == b1.items() && r.pairs() == inserted(
                            self.pairs(),
                            key,
                            Value::Array(inner),
                        )
                },
    {
        let builder = ArrayBuilder::new();
        let ghost b0 = builder;
        let built = f(builder);
        let ghost b1 = built;
        let v = built.unwrap();
        let ghost gv = v;
        let ghost gkey = key;
        let mut this = self;
        this.object.insert(key, v);
        proof {
            assert(call_ensures(f, (b0,), b1));
            assert(call_ensures_on_empty_array(f, b1));
            match gv {
                Value::Array(ga) => {
                    assert(ga@ == b1.items() && this.pairs() == inserted(
                        self.pairs(),
                        gkey,
                        Value::Array(ga),
                    ));
                },
                _ => {
                    assert(false);
                },
            }
        }
        this
    }

    /// Run a nested object builder from empty and insert the object it
    /// produces under `key`.
    pub fn insert_object<F: FnOnce(ObjectBuilder) -> ObjectBuilder>(
        self,
        key: String,
        f: F,
    ) -> (r: ObjectBuilder)
        requires
            self.wf(),
            forall|b: ObjectBuilder|
                b.pairs() == Seq::<(String, Value)>::empty() ==> #[trigger] call_requires(f, (b,)),
        ensures
            r.wf(),
            exists|b1: ObjectBuilder|
                {
                    &&& #[trigger] call_ensures_on_empty_object(f, b1)
                    &&& exists|inner: ValueMap|
                        inner.pairs() == b1.pairs() && r.pairs() == inserted(
                            self.pairs(),
                            key,
                            Value::Object(inner),
                        )
                },
    {
        let builder = ObjectBuilder::new();
        let ghost b0 = builder;
        let built = f(builder);
        let ghost b1 = built;
        let v = built.unwrap();
        let ghost gv = v;
        let ghost gkey = key;
        let mut this = self;
        this.object.insert(key, v);
        proof {
            assert(call_ensures(f, (b0,), b1));
            assert(call_ensures_on_empty_object(f, b1));
            match gv {
                Value::Object(gm) => {
                    assert(gm.pairs() == b1.pairs() && this.pairs() == inserted(
                        self.pairs(),
                        gkey,
                        Value::Object(gm),
                    ));
                },
                _ => {
                    assert(false);
                },
            }
        }
        this
    }
}

} // verus!
