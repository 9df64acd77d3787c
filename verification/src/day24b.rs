use vstd::prelude::*;
use vstd::string::StringSliceAdditionalSpecFns;
use crate::text::views_of;
use vstd::multiset::Multiset;

verus! {

/// A gate's boolean operation.
#[derive(Debug, PartialEq, Eq, Structural, Clone, Copy)]
pub enum Operation {
    And,
    Or,
    Xor,
}

/// One logic gate: two input wires, an output wire, and an operation.
#[derive(Debug)]
pub struct Gate {
    pub inputs: [String; 2],
    pub output: String,
    pub operation: Operation,
}

/// The bytes of `AND`.
pub open spec fn and_lit() -> Seq<u8> {
    seq![0x41u8, 0x4eu8, 0x44u8]
}

/// The bytes of `OR`.
pub open spec fn or_lit() -> Seq<u8> {
    seq![0x4fu8, 0x52u8]
}

/// The bytes of `XOR`.
pub open spec fn xor_lit() -> Seq<u8> {
    seq![0x58u8, 0x4fu8, 0x52u8]
}

/// The bytes of `->`.
pub open spec fn arrow_lit() -> Seq<u8> {
    seq![0x2du8, 0x3eu8]
}

/// A well-formed gate line split at its spaces: left input, operation,
/// right input, an arrow, output.
pub open spec fn gate_fields_ok(fields: Seq<Seq<u8>>) -> bool {
    &&& fields.len() == 5
    &&& fields[0].len() > 0
    &&& (fields[1] == and_lit() || fields[1] == or_lit() || fields[1] == xor_lit())
    &&& fields[2].len() > 0
    &&& fields[3] == arrow_lit()
    &&& fields[4].len() > 0
}

/// The operation a field names.
pub open spec fn operation_of(field: Seq<u8>) -> Operation {
    if field == and_lit() {
        Operation::And
    } else if field == or_lit() {
        Operation::Or
    } else {
        Operation::Xor
    }
}

/// The characters that a run of plain ASCII bytes spells.
pub open spec fn ascii_chars(s: Seq<u8>) -> Seq<char> {
    Seq::new(s.len(), |i: int| s[i] as char)
}

/// Copy a field into a string.
fn field_string(f: &Vec<u8>) -> (r: Option<String>)
    ensures
        r matches Some(s) ==> s@ == ascii_chars(f@),
        r is None ==> !crate::text::is_ascii_bytes(f@),
{
    let n = f.len();
    let mut i: usize = 0;
    while i < n
        invariant
            n == f@.len(),
            i <= n,
            forall|q: int| 0 <= q < i ==> (#[trigger] f@[q]) < 0x80,
        decreases n - i,
    {
        if f[i] >= 0x80 {
            return None;
        }
        i += 1;
    }
    Some(ascii_to_string(f))
}

/// Relies on String::from_utf8 for plain ASCII bytes: each byte
/// becomes the character it spells.
#[verifier::external_body]
fn ascii_to_string(f: &Vec<u8>) -> (r: String)
    requires
        crate::text::is_ascii_bytes(f@),
    ensures
        r@ == ascii_chars(f@),
{
    String::from_utf8(f.clone()).unwrap()
}

impl Gate {
    /// Parse one gate line, `a OP b -> out`.  Succeeds exactly on that
    /// shape with ASCII wire names.
    pub fn parse(line: &[u8]) -> (r: Option<Gate>)
        ensures
            r matches Some(g) ==> {
                let fields = crate::text::split_on(line@, 0x20);
                &&& gate_fields_ok(fields)
                &&& g.inputs@[0]@ == ascii_chars(fields[0])
                &&& g.inputs@[1]@ == ascii_chars(fields[2])
                &&& g.output@ == ascii_chars(fields[4])
                &&& g.operation == operation_of(fields[1])
            },
            r is None ==> {
                let fields = crate::text::split_on(line@, 0x20);
                ||| !gate_fields_ok(fields)
                ||| !crate::text::is_ascii_bytes(fields[0])
                ||| !crate::text::is_ascii_bytes(fields[2])
                ||| !crate::text::is_ascii_bytes(fields[4])
            },
    {
        let fields = crate::text::split_bytes(line, 0x20);
        if fields.len() != 5 {
            return None;
        }
        assert(views_of(fields@).len() == 5);
        let op_field = &fields[1];
        let operation = if op_field.len() == 3 && op_field[0] == 0x41 && op_field[1] == 0x4e
            && op_field[2] == 0x44 {
            assert(op_field@ =~= and_lit());
            Operation::And
        } else if op_field.len() == 2 && op_field[0] == 0x4f && op_field[1] == 0x52 {
            assert(op_field@ =~= or_lit());
            Operation::Or
        } else if op_field.len() == 3 && op_field[0] == 0x58 && op_field[1] == 0x4f && op_field[2]
            == 0x52 {
            assert(op_field@ =~= xor_lit());
            Operation::Xor
        } else {
            assert(op_field@ != and_lit() && op_field@ != or_lit() && op_field@ != xor_lit()) by {
                if op_field@ =~= and_lit() {
                }
                if op_field@ =~= or_lit() {
                }
                if op_field@ =~= xor_lit() {
                }
            }
            return None;
        };
        let arrow = &fields[3];
        if !(arrow.len() == 2 && arrow[0] == 0x2d && arrow[1] == 0x3e) {
            assert(arrow@ != arrow_lit()) by {
                if arrow@ =~= arrow_lit() {
                }
            }
            return None;
        }
        assert(arrow@ =~= arrow_lit());
        if fields[0].len() == 0 || fields[2].len() == 0 || fields[4].len() == 0 {
            return None;
        }
        let left = match field_string(&fields[0]) {
            Some(s) => s,
            None => {
                return None;
            },
        };
        let right = match field_string(&fields[2]) {
            Some(s) => s,
            None => {
                return None;
            },
        };
        let output = match field_string(&fields[4]) {
            Some(s) => s,
            None => {
                return None;
            },
        };
        Some(Gate { inputs: [left, right], output, operation })
    }
}

/// The gates of the device, and the output wires swapped so far.
#[derive(Debug)]
pub struct Puzzle {
    pub gates: Vec<Gate>,
    pub swapped: Vec<String>,
}

/// Some gate drives the named wire.
pub open spec fn drives(gates: Seq<Gate>, wire: Seq<char>) -> bool {
    exists|i: int| 0 <= i < gates.len() && (#[trigger] gates[i]).output@ == wire
}

/// The last gate driving the named wire.
pub open spec fn last_driver(gates: Seq<Gate>, wire: Seq<char>) -> int
    decreases gates.len(),
{
    if gates.len() == 0 {
        -1
    } else if gates.last().output@ == wire {
        gates.len() - 1
    } else {
        last_driver(gates.drop_last(), wire)
    }
}

/// The last driver is a driver, and nothing later drives the wire.
proof fn lemma_last_driver(gates: Seq<Gate>, wire: Seq<char>)
    requires
        drives(gates, wire),
    ensures
        0 <= last_driver(gates, wire) < gates.len(),
        gates[last_driver(gates, wire)].output@ == wire,
        forall|i: int|
            last_driver(gates, wire) < i < gates.len() ==> (#[trigger] gates[i]).output@ != wire,
    decreases gates.len(),
{
    if gates.len() > 0 {
        if gates.last().output@ == wire {
        } else {
            assert(drives(gates.drop_last(), wire)) by {
                let i = choose|i: int|
                    0 <= i < gates.len() && (#[trigger] gates[i]).output@ == wire;
                assert(gates.drop_last()[i] == gates[i]);
            }
            lemma_last_driver(gates.drop_last(), wire);
            assert(forall|i: int|
                0 <= i < gates.len() - 1 ==> #[trigger] gates[i] == gates.drop_last()[i]);
        }
    }
}

impl Puzzle {
    /// Find the last gate driving the given wire.
    fn find_output(&self, wire: &String) -> (r: Option<usize>)
        ensures
            r matches Some(i) ==> i == last_driver(self.gates@, wire@),
            r is None ==> !drives(self.gates@, wire@),
    {
        let n = self.gates.len();
        let mut found: Option<usize> = None;
        let mut i: usize = 0;
        while i < n
            invariant
                n == self.gates@.len(),
                i <= n,
                match found {
                    Some(f) => f == last_driver(self.gates@.take(i as int), wire@),
                    None => !drives(self.gates@.take(i as int), wire@),
                },
            decreases n - i,
        {
            let ghost pre = self.gates@.take(i as int);
            let ghost pre1 = self.gates@.take(i as int + 1);
            assert(pre1.drop_last() == pre);
            let g = &self.gates[i];
            if g.output.eq(wire) {
                assert(pre1.last().output@ == wire@);
                found = Some(i);
            } else {
                proof {
                    if found is None && drives(pre1, wire@) {
                        let q = choose|q: int|
                            0 <= q < pre1.len() && (#[trigger] pre1[q]).output@ == wire@;
                        assert(pre[q] == pre1[q]);
                    }
                }
            }
            i += 1;
        }
        assert(self.gates@.take(n as int) == self.gates@);
        found
    }

    /// Swap the output wires of the gates driving `a` and `b`, and note
    /// both names.  Each wire must be driven.
    pub fn perform_swap(&mut self, a: &str, b: &str)
        requires
            drives(old(self).gates@, a@),
            drives(old(self).gates@, b@),
        ensures
            ({
                let ia = last_driver(old(self).gates@, a@);
                let ib = last_driver(old(self).gates@, b@);
                let oldg = old(self).gates@;
                let newg = final(self).gates@;
                let olds = old(self).swapped@;
                let news = final(self).swapped@;
                &&& newg.len() == oldg.len()
                &&& newg[ia].output@ == b@
                &&& newg[ib].output@ == a@
                &&& (forall|i: int|
                    0 <= i < oldg.len() && i != ia && i != ib ==> #[trigger] newg[i] == oldg[i])
                &&& (forall|i: int|
                    0 <= i < oldg.len() ==> (#[trigger] newg[i]).inputs == oldg[i].inputs
                        && newg[i].operation == oldg[i].operation)
                &&& news.len() == olds.len() + 2
                &&& news[news.len() - 2]@ == a@
                &&& news[news.len() - 1]@ == b@
                &&& (forall|i: int| 0 <= i < olds.len() ==> #[trigger] news[i] == olds[i])
            }),
    {
        broadcast use vstd::string::to_string_from_display_ensures_for_str;

        let sa = a.to_string();
        let sb = b.to_string();
        self.swapped.push(sa.clone());
        self.swapped.push(sb.clone());
        proof {
            lemma_last_driver(self.gates@, a@);
            lemma_last_driver(self.gates@, b@);
        }
        let ia = self.find_output(&sa).unwrap();
        let ib = self.find_output(&sb).unwrap();
        let new_a = b.to_string();
        let new_b = a.to_string();
        swap_output(&mut self.gates, ia, new_a);
        swap_output(&mut self.gates, ib, new_b);
    }
}

/// Replace the output wire of gate `i`, keeping its inputs and
/// operation.
fn swap_output(gates: &mut Vec<Gate>, i: usize, wire: String)
    requires
        i < old(gates)@.len(),
    ensures
        final(gates)@.len() == old(gates)@.len(),
        final(gates)@[i as int].output == wire,
        final(gates)@[i as int].inputs == old(gates)@[i as int].inputs,
        final(gates)@[i as int].operation == old(gates)@[i as int].operation,
        forall|q: int|
            0 <= q < old(gates)@.len() && q != i ==> #[trigger] final(gates)@[q] == old(
                gates,
            )@[q],
{
    let g = gates.remove(i);
    let replaced = Gate { inputs: g.inputs, output: wire, operation: g.operation };
    gates.insert(i, replaced);
    assert(gates@ =~= old(gates)@.update(i as int, gates@[i as int]));
}

/// Lexicographic order on names, decided at the first differing
/// character position at or after `i`.
pub open spec fn lex_le_from(a: Seq<char>, b: Seq<char>, i: int) -> bool
    decreases a.len() - i,
{
    if i >= a.len() {
        true
    } else if i >= b.len() {
        false
    } else if a[i] != b[i] {
        (a[i] as int) < (b[i] as int)
    } else {
        lex_le_from(a, b, i + 1)
    }
}

/// Lexicographic order on names.
pub open spec fn lex_le(a: Seq<char>, b: Seq<char>) -> bool {
    lex_le_from(a, b, 0)
}

/// The names are in lexicographic order.
pub open spec fn names_sorted(ss: Seq<Seq<char>>) -> bool {
    forall|i: int, j: int| 0 <= i < j < ss.len() ==> lex_le(#[trigger] ss[i], #[trigger] ss[j])
}

/// The names joined with commas between them.
pub open spec fn join_commas(ss: Seq<Seq<char>>) -> Seq<char>
    decreases ss.len(),
{
    if ss.len() == 0 {
        Seq::<char>::empty()
    } else if ss.len() == 1 {
        ss[0]
    } else {
        join_commas(ss.drop_last()) + seq![','] + ss.last()
    }
}

/// Decide the lexicographic order of two names.
fn string_le(a: &String, b: &String) -> (r: bool)
    ensures
        r == lex_le(a@, b@),
{
    let sa = a.as_str();
    let sb = b.as_str();
    let la = sa.unicode_len();
    let lb = sb.unicode_len();
    let mut i: usize = 0;
    loop
        invariant
            la == a@.len(),
            lb == b@.len(),
            sa@ == a@,
            sb@ == b@,
            i <= la,
            i <= lb,
            lex_le(a@, b@) == lex_le_from(a@, b@, i as int),
        decreases la - i,
    {
        if i >= la {
            return true;
        }
        if i >= lb {
            return false;
        }
        let ca = sa.get_char(i);
        let cb = sb.get_char(i);
        if ca != cb {
            return (ca as u32) < (cb as u32);
        }
        i += 1;
    }
}

/// The lexicographic order is total: one way or the other.
proof fn lemma_lex_total(a: Seq<char>, b: Seq<char>, i: int)
    requires
        0 <= i,
    ensures
        lex_le_from(a, b, i) || lex_le_from(b, a, i),
    decreases a.len() - i,
{
    if i < a.len() && i < b.len() && a[i] == b[i] {
        lemma_lex_total(a, b, i + 1);
    }
}

impl Puzzle {
    /// Sort the swapped wire names and join them with commas.
    pub fn process(&mut self) -> (r: String)
        ensures
            exists|sorted: Seq<String>|
                {
                    &&& (#[trigger] sorted.to_multiset()) == old(self).swapped@.to_multiset()
                    &&& names_sorted(sorted.map_values(|s: String| s@))
                    &&& final(self).swapped@ == sorted
                    &&& r@ == join_commas(sorted.map_values(|s: String| s@))
                },
    {
        broadcast use vstd::seq_lib::group_to_multiset_ensures;

        let ghost orig = self.swapped@;
        let mut out: Vec<String> = Vec::new();
        while self.swapped.len() > 0
            invariant
                out@.to_multiset().add(self.swapped@.to_multiset()) =~= orig.to_multiset(),
                names_sorted(out@.map_values(|s: String| s@)),
            decreases self.swapped@.len(),
        {
            let x = self.swapped.remove(0);
            let m = out.len();
            let mut pos: usize = 0;
            while pos < m && string_le(&out[pos], &x)
                invariant
                    m == out@.len(),
                    pos <= m,
                    forall|j: int| 0 <= j < pos ==> lex_le((#[trigger] out@[j])@, x@),
                decreases m - pos,
            {
                pos += 1;
            }
            assert forall|j: int| pos <= j < out@.len() implies lex_le(x@, (#[trigger] out@[j])@) by {
                let nv = out@.map_values(|s: String| s@);
                assert(!lex_le(out@[pos as int]@, x@));
                lemma_lex_total(out@[pos as int]@, x@, 0);
                if j > pos {
                    assert(lex_le(nv[pos as int], nv[j]));
                    assert(nv[pos as int] == out@[pos as int]@ && nv[j] == out@[j]@);
                    lemma_lex_trans(x@, out@[pos as int]@, out@[j]@);
                }
            }
            let ghost prev = out@;
            out.insert(pos, x);
            proof {
                assert(out@ == prev.insert(pos as int, x));
                assert(out@.to_multiset() == prev.to_multiset().insert(x));
                assert(names_sorted(out@.map_values(|s: String| s@))) by {
                    let nv = out@.map_values(|s: String| s@);
                    assert forall|i: int, j: int| 0 <= i < j < nv.len() implies lex_le(
                        #[trigger] nv[i],
                        #[trigger] nv[j],
                    ) by {
                        assert(forall|q: int|
                            0 <= q < out@.len() ==> #[trigger] out@[q] == if q < pos {
                                prev[q]
                            } else if q == pos {
                                x
                            } else {
                                prev[q - 1]
                            });
                        assert(nv[i] == out@[i]@ && nv[j] == out@[j]@);
                        let pv = prev.map_values(|s: String| s@);
                        assert(forall|q: int| 0 <= q < prev.len() ==> #[trigger] pv[q] == prev[q]@);
                        if i < pos && j < pos {
                            assert(lex_le(pv[i], pv[j]));
                        } else if j == pos {
                            assert(lex_le(prev[i]@, x@));
                        } else if i == pos {
                            assert(lex_le(x@, prev[j - 1]@));
                        } else if i < pos {
                            assert(lex_le(pv[i], pv[j - 1]));
                        } else {
                            assert(lex_le(pv[i - 1], pv[j - 1]));
                        }
                    }
                }
            }
        }
        assert(self.swapped@.to_multiset() =~= Multiset::<String>::empty());
        assert(out@.to_multiset() =~= orig.to_multiset());
        let n = out.len();
        let mut joined = String::new();
        let mut i: usize = 0;
        while i < n
            invariant
                n == out@.len(),
                i <= n,
                joined@ == join_commas(out@.map_values(|s: String| s@).take(i as int)),
            decreases n - i,
        {
            let ghost nv = out@.map_values(|s: String| s@);
            assert(nv.take(i as int + 1).drop_last() == nv.take(i as int));
            assert(nv.take(i as int + 1).last() == nv[i as int]);
            if i > 0 {
                joined.append(",");
                proof {
                    reveal_strlit(",");
                }
            }
            joined.append(out[i].as_str());
            assert(joined@ =~= join_commas(nv.take(i as int + 1)));
            i += 1;
        }
        assert(out@.map_values(|s: String| s@).take(n as int) == out@.map_values(
            |s: String| s@,
        ));
        self.swapped = out;
        joined
    }
}

/// The lexicographic order is transitive.
proof fn lemma_lex_trans(a: Seq<char>, b: Seq<char>, c: Seq<char>)
    requires
        lex_le(a, b),
        lex_le(b, c),
    ensures
        lex_le(a, c),
{
    lemma_lex_trans_from(a, b, c, 0);
}

/// Transitivity, position by position.
proof fn lemma_lex_trans_from(a: Seq<char>, b: Seq<char>, c: Seq<char>, i: int)
    requires
        0 <= i,
        lex_le_from(a, b, i),
        lex_le_from(b, c, i),
    ensures
        lex_le_from(a, c, i),
    decreases a.len() - i,
{
    if i < a.len() && i < c.len() {
        if i >= b.len() {
        } else {
            if a[i] == c[i] {
                if a[i] == b[i] && b[i] == c[i] {
                    lemma_lex_trans_from(a, b, c, i + 1);
                }
            }
        }
    }
}

} // verus!
