use vstd::prelude::*;

verus! {

/// An object number and a generation number.
pub type ObjectId = (u32, u16);

/// How a string object is written: in parentheses or as hexadecimal digits.
#[derive(Debug, Clone, Copy, PartialEq, Eq, Structural)]
pub enum StringFormat {
    Literal,
    Hexadecimal,
}

/// A PDF object.
///
/// A real number is held as the decimal text that writes it: the library
/// never computes with it, it only writes it back.
#[derive(Debug)]
pub enum Object {
    Null,
    Boolean(bool),
    Integer(i64),
    Real(Vec<u8>),
    Name(Vec<u8>),
    String(Vec<u8>, StringFormat),
    Array(Vec<Object>),
    Dictionary(Dictionary),
    Stream(Stream),
    Reference(ObjectId),
}

/// A dictionary: keys in the order in which they were first set, each key
/// at most once.
#[derive(Debug)]
pub struct Dictionary(pub Vec<(Vec<u8>, Object)>);

/// A stream: its dictionary and its content bytes.
#[derive(Debug)]
pub struct Stream {
    pub dict: Dictionary,
    pub allows_compression: bool,
    pub content: Vec<u8>,
    pub start_position: Option<usize>,
}

/// The objects that a separating space must precede, inside an array or a
/// dictionary, and after the header of an indirect object.
pub open spec fn spec_need_separator(o: Object) -> bool {
    o is Null || o is Boolean || o is Integer || o is Real || o is Reference || o is Name
}

/// The objects after which a space is written, so that the next token does
/// not run into them.
pub open spec fn spec_need_end_separator(o: Object) -> bool {
    o is Null || o is Boolean || o is Integer || o is Real || o is Name || o is Reference
}


/// Equal byte strings.
pub fn bytes_eq(a: &[u8], b: &[u8]) -> (r: bool)
    ensures
        r == (a@ == b@),
{
    if a.len() != b.len() {
        return false;
    }
    let n = a.len();
    let mut i: usize = 0;
    while i < n
        invariant
            n == a@.len(),
            n == b@.len(),
            i <= n,
            forall|j: int| 0 <= j < i ==> a@[j] == b@[j],
        decreases n - i,
    {
        if a[i] != b[i] {
            return false;
        }
        i = i + 1;
    }
    assert(a@ =~= b@);
    true
}

/// Keys are distinct.
pub open spec fn keys_distinct(s: Seq<(Vec<u8>, Object)>) -> bool {
    forall|i: int, j: int| 0 <= i < j < s.len() ==> s[i].0@ != s[j].0@
}

/// `key` stands at `i` and at no earlier position.
pub open spec fn first_key_at(s: Seq<(Vec<u8>, Object)>, key: Seq<u8>, i: int) -> bool {
    0 <= i < s.len() && s[i].0@ == key && forall|j: int| 0 <= j < i ==> s[j].0@ != key
}

/// Where `key` first stands among the entries, if it does.
pub open spec fn key_position(s: Seq<(Vec<u8>, Object)>, key: Seq<u8>) -> Option<int> {
    if exists|i: int| first_key_at(s, key, i) {
        Some(choose|i: int| first_key_at(s, key, i))
    } else {
        None
    }
}

/// The value of `key`, if the dictionary has it.
pub open spec fn dict_value(s: Seq<(Vec<u8>, Object)>, key: Seq<u8>) -> Option<Object> {
    match key_position(s, key) {
        Some(i) => Some(s[i].1),
        None => None,
    }
}

/// `key` given `value`: replaced where the key already stands, appended
/// otherwise.
pub open spec fn dict_set(s: Seq<(Vec<u8>, Object)>, key: Vec<u8>, value: Object) -> Seq<
    (Vec<u8>, Object),
> {
    match key_position(s, key@) {
        Some(i) => s.update(i, (s[i].0, value)),
        None => s.push((key, value)),
    }
}

/// `key` taken out, the other entries keeping their order.
pub open spec fn dict_remove(s: Seq<(Vec<u8>, Object)>, key: Seq<u8>) -> Seq<(Vec<u8>, Object)> {
    match key_position(s, key) {
        Some(i) => s.remove(i),
        None => s,
    }
}

/// `Type`
pub open spec fn key_type() -> Seq<u8> {
    seq![84u8, 121u8, 112u8, 101u8]
}

/// `Linearized`
pub open spec fn key_linearized() -> Seq<u8> {
    seq![76u8, 105u8, 110u8, 101u8, 97u8, 114u8, 105u8, 122u8, 101u8, 100u8]
}

/// The type of a dictionary: its `Type` when that is a name, else
/// `Linearized` when it has that key.
pub open spec fn dict_type_name(s: Seq<(Vec<u8>, Object)>) -> Option<Seq<u8>> {
    match dict_value(s, key_type()) {
        Some(Object::Name(n)) => Some(n@),
        _ => if key_position(s, key_linearized()) is Some {
            Some(key_linearized())
        } else {
            None
        },
    }
}

/// The type of an object: that of its dictionary, for a dictionary or a
/// stream.
pub open spec fn object_type_name(o: Object) -> Option<Seq<u8>> {
    match o {
        Object::Dictionary(d) => dict_type_name(d.0@),
        Object::Stream(s) => dict_type_name(s.dict.0@),
        _ => None,
    }
}

impl Dictionary {
    pub open spec fn wf(&self) -> bool {
        keys_distinct(self.0@)
    }

    /// An empty dictionary.
    pub fn new() -> (r: Dictionary)
        ensures
            r.0@.len() == 0,
            r.wf(),
    {
        Dictionary(Vec::new())
    }

    /// Where `key` stands, if it does.
    fn position(&self, key: &[u8]) -> (r: Option<usize>)
        ensures
            r matches Some(i) ==> key_position(self.0@, key@) == Some(i as int),
            r is None ==> key_position(self.0@, key@) is None,
            r is None ==> forall|j: int| 0 <= j < self.0@.len() ==> self.0@[j].0@ != key@,
    {
        let n = self.0.len();
        let mut i: usize = 0;
        while i < n
            invariant
                n == self.0@.len(),
                i <= n,
                forall|j: int| 0 <= j < i ==> self.0@[j].0@ != key@,
            decreases n - i,
        {
            if bytes_eq(self.0[i].0.as_slice(), key) {
                let ghost s = self.0@;
                assert(first_key_at(s, key@, i as int));
                assert(forall|j: int| first_key_at(s, key@, j) ==> j == i);
                return Some(i);
            }
            i = i + 1;
        }
        None
    }

    /// Whether the dictionary has `key`.
    pub fn has(&self, key: &[u8]) -> (r: bool)
        ensures
            r == key_position(self.0@, key@) is Some,
    {
        self.position(key).is_some()
    }

    /// The value of `key`, if the dictionary has it.
    pub fn get(&self, key: &[u8]) -> (r: Option<&Object>)
        ensures
            r matches Some(v) ==> dict_value(self.0@, key@) == Some(*v),
            r is None ==> dict_value(self.0@, key@) is None,
    {
        match self.position(key) {
            Some(i) => Some(&self.0[i].1),
            None => None,
        }
    }

    /// Gives `key` the value `value`: in place when the key is there,
    /// appended when it is not.
    pub fn set(&mut self, key: Vec<u8>, value: Object)
        ensures
            old(self).wf() ==> final(self).wf(),
            final(self).0@ == dict_set(old(self).0@, key, value),
    {
        match self.position(key.as_slice()) {
            Some(i) => {
                let ghost s = self.0@;
                let (k, _old_value) = self.0.remove(i);
                self.0.insert(i, (k, value));
                assert(self.0@ =~= s.update(i as int, (s[i as int].0, value)));
            },
            None => {
                self.0.push((key, value));
            },
        }
    }

    /// Takes `key` out, keeping the order of the other entries.
    pub fn remove(&mut self, key: &[u8]) -> (r: Option<Object>)
        ensures
            old(self).wf() ==> final(self).wf(),
            final(self).0@ == dict_remove(old(self).0@, key@),
            r == dict_value(old(self).0@, key@),
    {
        match self.position(key) {
            Some(i) => {
                let ghost s = self.0@;
                let (_k, v) = self.0.remove(i);
                assert forall|a: int, b: int|
                    keys_distinct(s) && 0 <= a < b < self.0@.len() implies self.0@[a].0@
                        != self.0@[b].0@ by {
                    let a0 = if a < i { a } else { a + 1 };
                    let b0 = if b < i { b } else { b + 1 };
                    assert(self.0@[a] == s[a0]);
                    assert(self.0@[b] == s[b0]);
                }
                Some(v)
            },
            None => None,
        }
    }

    /// The declared type of the dictionary (see `dict_type_name`).
    pub fn declared_type(&self) -> (r: Option<&[u8]>)
        ensures
            r matches Some(n) ==> dict_type_name(self.0@) == Some(n@),
            r is None ==> dict_type_name(self.0@) is None,
    {
        match self.get(&[84u8, 121, 112, 101]) {
            Some(Object::Name(n)) => {
                return Some(n.as_slice());
            },
            _ => {},
        }
        let ghost lin = key_linearized();
        if self.has(&[76u8, 105, 110, 101, 97, 114, 105, 122, 101, 100]) {
            Some(&[76u8, 105, 110, 101, 97, 114, 105, 122, 101, 100])
        } else {
            None
        }
    }
}

} // verus!
