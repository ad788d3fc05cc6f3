use vstd::prelude::*;

use crate::error::Error;
use crate::object::Object;

verus! {

/// An operator of a content stream and its operands.
#[derive(Debug)]
pub struct Operation {
    pub operator: String,
    pub operands: Vec<Object>,
}

/// The operators of a text object (`BT` .. `ET`) of a content stream.
#[derive(Debug)]
pub struct TextOperation<'a> {
    operators: &'a Vec<Operation>,
}

/// Where the parts of a text style come from: the bytes shown, and the
/// positions of the operators that set the text matrix (`Tm`), move the
/// position (`Td`), set the leading (`TL`) and choose the font (`Tf`).
#[derive(Debug)]
pub struct TextStyleOperands {
    pub text: Vec<u8>,
    pub tm: Option<usize>,
    pub td: Option<usize>,
    pub tl: Option<usize>,
    pub tf: Option<usize>,
}

/// How looking back from a text-showing operator for its style ends.
#[derive(Debug, Clone, Copy, PartialEq, Eq, Structural)]
pub enum StyleScan {
    /// The nearest `Tm`, `Td`, `TL` and `Tf` before it (back to the `BT`).
    Found(Option<usize>, Option<usize>, Option<usize>, Option<usize>),
    /// An operand that must be a number is not.
    NotANumber,
    /// An operator lacks an operand it needs, or `Tf` has no numeric size.
    Malformed,
}

pub open spec fn is_op(op: Operation, name: Seq<char>) -> bool {
    op.operator@ == name
}

pub open spec fn spec_is_text_operation(op: Operation) -> bool {
    is_op(op, seq!['T', 'j']) || is_op(op, seq!['T', 'J'])
}

pub open spec fn is_number(o: Object) -> bool {
    o is Integer || o is Real
}

/// Operand `i` is there and is a number; reading stops at the first
/// missing operand.
pub open spec fn number_at(op: Operation, i: int) -> Option<bool> {
    if i < op.operands@.len() {
        Some(is_number(op.operands@[i]))
    } else {
        None
    }
}

/// Looking back from position `k` (down to the `BT`), keeping the nearest
/// `Tm`, `Td`, `TL` and `Tf` found so far.
pub open spec fn style_scan(
    ops: Seq<Operation>,
    k: int,
    tm: Option<usize>,
    td: Option<usize>,
    tl: Option<usize>,
    tf: Option<usize>,
) -> StyleScan
    decreases k + 1,
{
    if k < 0 {
        StyleScan::Found(tm, td, tl, tf)
    } else {
        let op = ops[k];
        if is_op(op, seq!['T', 'm']) && tm is None {
            // operands 4 and 5: the translation of the text matrix
            match number_at(op, 4) {
                None => StyleScan::Malformed,
                Some(false) => StyleScan::NotANumber,
                Some(true) => match number_at(op, 5) {
                    None => StyleScan::Malformed,
                    Some(false) => StyleScan::NotANumber,
                    Some(true) => style_scan(ops, k - 1, Some(k as usize), td, tl, tf),
                },
            }
        } else if is_op(op, seq!['T', 'd']) && td is None {
            match number_at(op, 0) {
                None => StyleScan::Malformed,
                Some(false) => StyleScan::NotANumber,
                Some(true) => match number_at(op, 1) {
                    None => StyleScan::Malformed,
                    Some(false) => StyleScan::NotANumber,
                    Some(true) => style_scan(ops, k - 1, tm, Some(k as usize), tl, tf),
                },
            }
        } else if is_op(op, seq!['T', 'L']) && tl is None {
            match number_at(op, 0) {
                None => StyleScan::Malformed,
                Some(false) => StyleScan::NotANumber,
                Some(true) => style_scan(ops, k - 1, tm, td, Some(k as usize), tf),
            }
        } else if is_op(op, seq!['T', 'f']) && tf is None {
            match number_at(op, 1) {
                Some(true) => style_scan(ops, k - 1, tm, td, tl, Some(k as usize)),
                _ => StyleScan::Malformed,
            }
        } else if is_op(op, seq!['B', 'T']) {
            StyleScan::Found(tm, td, tl, tf)
        } else {
            style_scan(ops, k - 1, tm, td, tl, tf)
        }
    }
}

/// The bytes of the strings in a sequence of objects, in order.
pub open spec fn strings_bytes(a: Seq<Object>) -> Seq<u8>
    decreases a.len(),
{
    if a.len() == 0 {
        Seq::empty()
    } else {
        strings_bytes(a.drop_last()) + match a.last() {
            Object::String(b, _) => b@,
            _ => Seq::empty(),
        }
    }
}

/// The bytes a text-showing operator shows: its string, or the strings of
/// its array.
pub open spec fn shown_bytes(o: Object) -> Seq<u8> {
    match o {
        Object::String(b, _) => b@,
        Object::Array(a) => strings_bytes(a@),
        _ => Seq::empty(),
    }
}

/// The style of the operator at `index` can be looked up without an
/// operator lacking what it needs.
pub open spec fn style_defined(ops: Seq<Operation>, index: int) -> bool {
    &&& 0 <= index < ops.len()
    &&& spec_is_text_operation(ops[index]) ==> {
        &&& ops[index].operands@.len() > 0
        &&& (ops[index].operands@[0] is String || ops[index].operands@[0] is Array)
        &&& style_scan(ops, index - 1, None, None, None, None) != StyleScan::Malformed
    }
}

/// `s` is the style found for the operator at `index`.
pub open spec fn style_is(s: TextStyleOperands, ops: Seq<Operation>, index: int) -> bool {
    &&& s.text@ == shown_bytes(ops[index].operands@[0])
    &&& style_scan(ops, index - 1, None, None, None, None) == StyleScan::Found(s.tm, s.td, s.tl, s.tf)
}

/// The first text-showing operator from `k` on that comes after an `ET`
/// (the first `ET` met if `found_et` is false), before a second `ET`.
pub open spec fn next_text_index(ops: Seq<Operation>, k: int, found_et: bool) -> Option<int>
    decreases ops.len() - k,
{
    if k < 0 || k >= ops.len() {
        None
    } else if is_op(ops[k], seq!['E', 'T']) {
        if found_et {
            None
        } else {
            next_text_index(ops, k + 1, true)
        }
    } else if spec_is_text_operation(ops[k]) && found_et {
        Some(k)
    } else {
        next_text_index(ops, k + 1, found_et)
    }
}


/// Whether the operator of `op` is `name`.
fn operator_is(op: &Operation, name: &str) -> (r: bool)
    ensures
        r == (op.operator@ == name@),
{
    op.operator == name.to_owned()
}

/// Whether an operand is a number.
fn is_number_object(o: &Object) -> (r: bool)
    ensures
        r == is_number(*o),
{
    match o {
        Object::Integer(_) | Object::Real(_) => true,
        _ => false,
    }
}

/// Whether operand `i` is there and is a number.
fn number_operand(op: &Operation, i: usize) -> (r: Option<bool>)
    ensures
        r == number_at(*op, i as int),
{
    if i < op.operands.len() {
        Some(is_number_object(&op.operands[i]))
    } else {
        None
    }
}

impl<'a> TextOperation<'a> {
    /// The operators.
    pub closed spec fn ops(&self) -> Seq<Operation> {
        self.operators@
    }

    pub fn new(operators: &'a Vec<Operation>) -> (r: TextOperation<'a>)
        ensures
            r.ops() == operators@,
    {
        TextOperation { operators }
    }

    /// Whether the operator shows text (`Tj` or `TJ`).
    pub fn is_text_operation(operation: &Operation) -> (r: bool)
        ensures
            r == spec_is_text_operation(*operation),
    {
        let tj = "Tj";
        let tj2 = "TJ";
        proof {
            reveal_strlit("Tj");
            reveal_strlit("TJ");
            assert(tj@ =~= seq!['T', 'j']);
            assert(tj2@ =~= seq!['T', 'J']);
        }
        operator_is(operation, tj) || operator_is(operation, tj2)
    }

    /// Checks that the operators open with `BT` and close with `ET`.
    pub fn validate_operators(operators: &Vec<Operation>) -> (r: Result<(), Error>)
        ensures
            r is Ok <==> (operators@.len() >= 2 && is_op(operators@[0], seq!['B', 'T']) && is_op(
                operators@.last(),
                seq!['E', 'T'],
            )),
            r is Err ==> r == Err::<(), Error>(Error::TextObjectBounds),
    {
        let bt = "BT";
        let et = "ET";
        proof {
            reveal_strlit("BT");
            reveal_strlit("ET");
            assert(bt@ =~= seq!['B', 'T']);
            assert(et@ =~= seq!['E', 'T']);
        }
        if operators.len() < 2 {
            return Err(Error::TextObjectBounds);
        }
        if !operator_is(&operators[0], bt) || !operator_is(&operators[operators.len() - 1], et) {
            return Err(Error::TextObjectBounds);
        }
        Ok(())
    }

    /// The bytes shown by a string, or by the strings of an array.
    fn shown_text(o: &Object) -> (r: Vec<u8>)
        ensures
            r@ == shown_bytes(*o),
    {
        let mut text: Vec<u8> = Vec::new();
        match o {
            Object::String(b, _) => {
                text.extend_from_slice(b.as_slice());
            },
            Object::Array(a) => {
                let n = a.len();
                let mut i: usize = 0;
                while i < n
                    invariant
                        n == a@.len(),
                        i <= n,
                        text@ == strings_bytes(a@.take(i as int)),
                    decreases n - i,
                {
                    match &a[i] {
                        Object::String(b, _) => {
                            text.extend_from_slice(b.as_slice());
                        },
                        _ => {},
                    }
                    assert(a@.take(i + 1).drop_last() =~= a@.take(i as int));
                    i = i + 1;
                }
                assert(a@.take(n as int) =~= a@);
            },
            _ => {},
        }
        text
    }

    /// The style of the text-showing operator at `index`: the bytes it shows,
    /// and the nearest `Tm`, `Td`, `TL` and `Tf` before it in its text
    /// object. An error when the operator does not show text, or when an
    /// operand that must be a number is not.
    pub fn get_style_at(&self, index: usize) -> (r: Result<TextStyleOperands, Error>)
        requires
            style_defined(self.ops(), index as int),
        ensures
            !spec_is_text_operation(self.ops()[index as int]) ==> r == Err::<
                TextStyleOperands,
                Error,
            >(Error::NotTextOperation),
            spec_is_text_operation(self.ops()[index as int]) ==> match style_scan(
                self.ops(),
                index - 1,
                None,
                None,
                None,
                None,
            ) {
                StyleScan::Found(..) => r is Ok && style_is(r->Ok_0, self.ops(), index as int),
                _ => r == Err::<TextStyleOperands, Error>(Error::NotANumber),
            },
    {
        let s_tm = "Tm";
        let s_td = "Td";
        let s_tl = "TL";
        let s_tf = "Tf";
        let s_bt = "BT";
        proof {
            reveal_strlit("Tm");
            reveal_strlit("Td");
            reveal_strlit("TL");
            reveal_strlit("Tf");
            reveal_strlit("BT");
            assert(s_tm@ =~= seq!['T', 'm']);
            assert(s_td@ =~= seq!['T', 'd']);
            assert(s_tl@ =~= seq!['T', 'L']);
            assert(s_tf@ =~= seq!['T', 'f']);
            assert(s_bt@ =~= seq!['B', 'T']);
        }
        let ops = self.operators;
        let tj_operation = &ops[index];
        if !Self::is_text_operation(tj_operation) {
            return Err(Error::NotTextOperation);
        }
        let text = Self::shown_text(&tj_operation.operands[0]);
        let mut tm: Option<usize> = None;
        let mut td: Option<usize> = None;
        let mut tl: Option<usize> = None;
        let mut tf: Option<usize> = None;
        let ghost goal = style_scan(ops@, index - 1, None, None, None, None);
        let mut k: usize = index;
        while k > 0
            invariant
                ops@ == self.ops(),
                k <= index < ops@.len(),
                goal == style_scan(ops@, k - 1, tm, td, tl, tf),
                goal == style_scan(ops@, index - 1, None, None, None, None),
                goal != StyleScan::Malformed,
                spec_is_text_operation(ops@[index as int]),
                ops@[index as int].operands@.len() > 0,
                text@ == shown_bytes(ops@[index as int].operands@[0]),
                s_tm@ == seq!['T', 'm'],
                s_td@ == seq!['T', 'd'],
                s_tl@ == seq!['T', 'L'],
                s_tf@ == seq!['T', 'f'],
                s_bt@ == seq!['B', 'T'],
            decreases k,
        {
            let j = k - 1;
            let op = &ops[j];
            assert(goal == style_scan(ops@, j as int, tm, td, tl, tf));
            if operator_is(op, s_tm) && tm.is_none() {
                match number_operand(op, 4) {
                    Some(true) => {},
                    _ => {
                        return Err(Error::NotANumber);
                    },
                }
                match number_operand(op, 5) {
                    Some(true) => {},
                    _ => {
                        return Err(Error::NotANumber);
                    },
                }
                tm = Some(j);
            } else if operator_is(op, s_td) && td.is_none() {
                match number_operand(op, 0) {
                    Some(true) => {},
                    _ => {
                        return Err(Error::NotANumber);
                    },
                }
                match number_operand(op, 1) {
                    Some(true) => {},
                    _ => {
                        return Err(Error::NotANumber);
                    },
                }
                td = Some(j);
            } else if operator_is(op, s_tl) && tl.is_none() {
                match number_operand(op, 0) {
                    Some(true) => {},
                    _ => {
                        return Err(Error::NotANumber);
                    },
                }
                tl = Some(j);
            } else if operator_is(op, s_tf) && tf.is_none() {
                tf = Some(j);
            } else if operator_is(op, s_bt) {
                assert(goal == StyleScan::Found(tm, td, tl, tf));
                let style = TextStyleOperands { text, tm, td, tl, tf };
                return Ok(style);
            }
            k = j;
        }
        assert(goal == style_scan(ops@, -1, tm, td, tl, tf));
        Ok(TextStyleOperands { text, tm, td, tl, tf })
    }

    /// Whether the style of the operator at `index` can be looked up: the
    /// index is in range and, for a text-showing operator, it has a string or
    /// an array to show and no `Tm`, `Td`, `TL` or `Tf` it depends on lacks an
    /// operand it needs.
    pub fn style_readable_at(&self, index: usize) -> (r: bool)
        ensures
            r == style_defined(self.ops(), index as int),
    {
        let s_tm = "Tm";
        let s_td = "Td";
        let s_tl = "TL";
        let s_tf = "Tf";
        let s_bt = "BT";
        proof {
            reveal_strlit("Tm");
            reveal_strlit("Td");
            reveal_strlit("TL");
            reveal_strlit("Tf");
            reveal_strlit("BT");
            assert(s_tm@ =~= seq!['T', 'm']);
            assert(s_td@ =~= seq!['T', 'd']);
            assert(s_tl@ =~= seq!['T', 'L']);
            assert(s_tf@ =~= seq!['T', 'f']);
            assert(s_bt@ =~= seq!['B', 'T']);
        }
        let ops = self.operators;
        if index >= ops.len() {
            return false;
        }
        let tj_operation = &ops[index];
        if !Self::is_text_operation(tj_operation) {
            return true;
        }
        if tj_operation.operands.len() == 0 {
            return false;
        }
        match &tj_operation.operands[0] {
            Object::String(..) | Object::Array(_) => {},
            _ => {
                return false;
            },
        }
        let mut tm: Option<usize> = None;
        let mut td: Option<usize> = None;
        let mut tl: Option<usize> = None;
        let mut tf: Option<usize> = None;
        let ghost goal = style_scan(ops@, index - 1, None, None, None, None);
        let mut k: usize = index;
        while k > 0
            invariant
                ops@ == self.ops(),
                k <= index < ops@.len(),
                goal == style_scan(ops@, k - 1, tm, td, tl, tf),
                goal == style_scan(ops@, index - 1, None, None, None, None),
                spec_is_text_operation(ops@[index as int]),
                ops@[index as int].operands@.len() > 0,
                ops@[index as int].operands@[0] is String || ops@[index as int].operands@[0] is Array,
                s_tm@ == seq!['T', 'm'],
                s_td@ == seq!['T', 'd'],
                s_tl@ == seq!['T', 'L'],
                s_tf@ == seq!['T', 'f'],
                s_bt@ == seq!['B', 'T'],
            decreases k,
        {
            let j = k - 1;
            let op = &ops[j];
            assert(goal == style_scan(ops@, j as int, tm, td, tl, tf));
            if operator_is(op, s_tm) && tm.is_none() {
                match number_operand(op, 4) {
                    None => {
                        return false;
                    },
                    Some(false) => {
                        return true;
                    },
                    Some(true) => {},
                }
                match number_operand(op, 5) {
                    None => {
                        return false;
                    },
                    Some(false) => {
                        return true;
                    },
                    Some(true) => {},
                }
                tm = Some(j);
            } else if operator_is(op, s_td) && td.is_none() {
                match number_operand(op, 0) {
                    None => {
                        return false;
                    },
                    Some(false) => {
                        return true;
                    },
                    Some(true) => {},
                }
                match number_operand(op, 1) {
                    None => {
                        return false;
                    },
                    Some(false) => {
                        return true;
                    },
                    Some(true) => {},
                }
                td = Some(j);
            } else if operator_is(op, s_tl) && tl.is_none() {
                match number_operand(op, 0) {
                    None => {
                        return false;
                    },
                    Some(false) => {
                        return true;
                    },
                    Some(true) => {},
                }
                tl = Some(j);
            } else if operator_is(op, s_tf) && tf.is_none() {
                match number_operand(op, 1) {
                    Some(true) => {},
                    _ => {
                        return false;
                    },
                }
                tf = Some(j);
            } else if operator_is(op, s_bt) {
                return true;
            }
            k = j;
        }
        true
    }

    /// The position of the first text-showing operator after the `ET` that
    /// follows `start_index`; `None` when a second `ET` comes first, or when
    /// there is none.
    pub fn next_text_index_after(&self, start_index: usize) -> (r: Option<usize>)
        ensures
            r matches Some(i) ==> next_text_index(self.ops(), start_index as int, false) == Some(
                i as int,
            ),
            r matches Some(i) ==> i < self.ops().len() && spec_is_text_operation(self.ops()[i as int]),
            r is None ==> next_text_index(self.ops(), start_index as int, false) is None,
    {
        let s_et = "ET";
        proof {
            reveal_strlit("ET");
            assert(s_et@ =~= seq!['E', 'T']);
        }
        let ops = self.operators;
        let n = ops.len();
        let mut found_et_once = false;
        let mut id: usize = start_index;
        let ghost goal = next_text_index(ops@, start_index as int, false);
        while id < n
            invariant
                ops@ == self.ops(),
                n == ops@.len(),
                start_index <= id,
                goal == next_text_index(ops@, start_index as int, false),
                goal == next_text_index(ops@, id as int, found_et_once),
                s_et@ == seq!['E', 'T'],
            decreases n - id,
        {
            let op = &ops[id];
            assert(goal == next_text_index(ops@, id as int, found_et_once));
            if operator_is(op, s_et) {
                if found_et_once {
                    return None;
                }
                found_et_once = true;
            } else if Self::is_text_operation(op) {
                if found_et_once {
                    return Some(id);
                }
            }
            id = id + 1;
        }
        None
    }

    /// The first text-showing operator after the `ET` that follows
    /// `start_index`, and its style; `None` when a second `ET` comes first,
    /// when there is none, or when its style cannot be read.
    pub fn get_next_style_after(&self, start_index: usize) -> (r: Option<(usize, TextStyleOperands)>)
        requires
            next_text_index(self.ops(), start_index as int, false) matches Some(id) ==> style_defined(
                self.ops(),
                id,
            ),
        ensures
            match next_text_index(self.ops(), start_index as int, false) {
                None => r is None,
                Some(id) => match style_scan(self.ops(), id - 1, None, None, None, None) {
                    StyleScan::Found(..) => r is Some && r.unwrap().0 == id && style_is(
                        r.unwrap().1,
                        self.ops(),
                        id,
                    ),
                    _ => r is None,
                },
            },
    {
        match self.next_text_index_after(start_index) {
            None => None,
            Some(id) => match self.get_style_at(id) {
                Ok(style) => Some((id, style)),
                Err(_) => None,
            },
        }
    }
}

} // verus!
