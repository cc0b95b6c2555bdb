//! A network of named nodes, each with a left and a right successor, read
//! from text and replayed against a cyclic tape of instructions.
use crate::text::{copy_range, find_line_end, lemma_line_end_bounds, lines, lines_from};
use vstd::prelude::*;
use vstd::set_lib::{lemma_int_range, lemma_len_subset, lemma_map_size, set_int_range};
use vstd::string::StringSliceAdditionalSpecFns;

verus! {

broadcast use vstd::seq_lib::group_to_multiset_ensures;

#[derive(Debug, Clone, Copy, PartialEq, Eq, Structural)]
pub enum Direction {
    Left,
    Right,
}

/// A cyclic tape of directions; reading one moves on, and the end wraps
/// round to the start.
#[derive(Debug)]
pub struct Instructions {
    directions: Vec<Direction>,
    current: usize,
}

impl Instructions {
    pub closed spec fn tape(&self) -> Seq<Direction> {
        self.directions@
    }

    pub closed spec fn position(&self) -> int {
        self.current as int
    }

    pub open spec fn wf(&self) -> bool {
        0 <= self.position() < self.tape().len()
    }

    pub fn new(directions: Vec<Direction>) -> (r: Instructions)
        requires
            directions@.len() > 0,
        ensures
            r.wf(),
            r.tape() == directions@,
            r.position() == 0,
    {
        Instructions { directions, current: 0 }
    }

    pub fn len(&self) -> (r: usize)
        ensures
            r == self.tape().len(),
    {
        self.directions.len()
    }

    /// The direction under the head; the head then moves on by one.
    pub fn next(&mut self) -> (r: Direction)
        requires
            old(self).wf(),
        ensures
            final(self).wf(),
            final(self).tape() == old(self).tape(),
            r == old(self).tape()[old(self).position()],
            final(self).position() == (old(self).position() + 1) % (old(self).tape().len() as int),
    {
        let r = self.directions[self.current];
        let n = self.directions.len();
        if self.current + 1 < n {
            proof {
                vstd::arithmetic::div_mod::lemma_small_mod((self.current + 1) as nat, n as nat);
            }
            self.current = self.current + 1;
        } else {
            proof {
                vstd::arithmetic::div_mod::lemma_mod_self_0(n as int);
            }
            self.current = 0;
        }
        r
    }
}

// Reading the text.

/// Why a network could not be read, built or replayed.
#[derive(Debug, Clone, Copy, PartialEq, Eq, Structural)]
pub enum NetworkError {
    /// No first line, or an empty one.
    EmptyTape,
    /// A byte of the first line that is neither `L` nor `R`.
    BadDirection,
    /// A non-empty line after the first that is not `NAME = (LEFT, RIGHT)`.
    MalformedLine,
    /// No node is a starting node.
    NoOrigin,
    /// A node that the walk needs has no line of its own.
    UndefinedNode,
    /// A walk that took as many steps as it has states, node by tape
    /// position, without arriving: it never arrives.
    StepLimit,
    /// A step count that does not fit in `u64`.
    Overflow,
}

pub open spec fn direction_of(c: u8) -> Option<Direction> {
    if c == ('L' as u8) {
        Some(Direction::Left)
    } else if c == ('R' as u8) {
        Some(Direction::Right)
    } else {
        None
    }
}

pub open spec fn is_alnum(c: u8) -> bool {
    (('0' as u8) <= c <= ('9' as u8)) || (('A' as u8) <= c <= ('Z' as u8)) || (('a' as u8) <= c
        <= ('z' as u8))
}

/// Length of the longest prefix of `s` made of ASCII letters and digits.
pub open spec fn alnum_prefix(s: Seq<u8>) -> nat
    decreases s.len(),
{
    if s.len() > 0 && is_alnum(s[0]) {
        1 + alnum_prefix(s.drop_first())
    } else {
        0
    }
}

/// The bytes between a node's name and its left successor: ` = (`.
pub open spec fn equals_open() -> Seq<u8> {
    seq![' ' as u8, '=' as u8, ' ' as u8, '(' as u8]
}

/// The bytes between the two successors: `, `.
pub open spec fn comma_space() -> Seq<u8> {
    seq![',' as u8, ' ' as u8]
}

/// A line `NAME = (LEFT, RIGHT)`, the three names being non-empty runs of
/// ASCII letters and digits, split into its names.
pub open spec fn node_line(line: Seq<u8>) -> Option<(Seq<u8>, Seq<u8>, Seq<u8>)> {
    let a = alnum_prefix(line) as int;
    let r1 = line.skip(a);
    let r2 = r1.skip(4);
    let b = alnum_prefix(r2) as int;
    let r3 = r2.skip(b);
    let r4 = r3.skip(2);
    let c = alnum_prefix(r4) as int;
    let r5 = r4.skip(c);
    if a > 0 && r1.len() >= 4 && r1.take(4) == equals_open() && b > 0 && r3.len() >= 2 && r3.take(2)
        == comma_space() && c > 0 && r5 == seq![')' as u8] {
        Some((line.take(a), r2.take(b), r4.take(c)))
    } else {
        None
    }
}

/// One line of the network: a node and its two successors.
#[derive(Debug)]
pub struct Definition {
    pub name: Vec<u8>,
    pub left: Vec<u8>,
    pub right: Vec<u8>,
}

impl View for Definition {
    type V = (Seq<u8>, Seq<u8>, Seq<u8>);

    open spec fn view(&self) -> (Seq<u8>, Seq<u8>, Seq<u8>) {
        (self.name@, self.left@, self.right@)
    }
}

/// The node definitions that the lines `ls` hold, in order; empty lines are skipped.
pub open spec fn node_lines(ls: Seq<Seq<u8>>) -> Seq<(Seq<u8>, Seq<u8>, Seq<u8>)>
    decreases ls.len(),
{
    if ls.len() == 0 {
        Seq::empty()
    } else {
        let rest = node_lines(ls.drop_last());
        if ls.last().len() == 0 {
            rest
        } else {
            rest.push(node_line(ls.last())->Some_0)
        }
    }
}

/// The first thing wrong with `b` as a network text, if anything is.
pub open spec fn network_error(b: Seq<u8>) -> Option<NetworkError> {
    let ls = lines(b);
    if ls.len() == 0 || ls[0].len() == 0 {
        Some(NetworkError::EmptyTape)
    } else if exists|i: int| 0 <= i < ls[0].len() && direction_of(#[trigger] ls[0][i]) is None {
        Some(NetworkError::BadDirection)
    } else if exists|y: int|
        1 <= y < ls.len() && (#[trigger] ls[y]).len() > 0 && node_line(ls[y]) is None {
        Some(NetworkError::MalformedLine)
    } else {
        None
    }
}

/// A network as text gives it: the tape of the first line, and the
/// definitions of the lines after it.
#[derive(Debug)]
pub struct NetworkText {
    pub tape: Vec<Direction>,
    pub defs: Vec<Definition>,
}

impl NetworkText {
    pub open spec fn defs_view(&self) -> Seq<(Seq<u8>, Seq<u8>, Seq<u8>)> {
        self.defs@.map_values(|d: Definition| d@)
    }

    /// The text that `b` holds is this one.
    pub open spec fn reads_from(&self, b: Seq<u8>) -> bool {
        let ls = lines(b);
        &&& self.tape@.len() == ls[0].len()
        &&& forall|i: int| 0 <= i < ls[0].len() ==> direction_of(#[trigger] ls[0][i]) == Some(self.tape@[i])
        &&& self.defs_view() == node_lines(ls.skip(1))
    }
}

/// Index just past the run of letters and digits that starts at `from`.
fn alnum_run(b: &[u8], from: usize, to: usize) -> (e: usize)
    requires
        from <= to <= b@.len(),
    ensures
        from <= e <= to,
        e - from == alnum_prefix(b@.subrange(from as int, to as int)),
{
    let mut e = from;
    while e < to && is_alnum_byte(b[e])
        invariant
            from <= e <= to <= b@.len(),
            alnum_prefix(b@.subrange(from as int, to as int)) == (e - from) + alnum_prefix(
                b@.subrange(e as int, to as int),
            ),
        decreases to - e,
    {
        assert(b@.subrange(e as int, to as int).drop_first() =~= b@.subrange(e + 1, to as int));
        e = e + 1;
    }
    e
}

fn is_alnum_byte(c: u8) -> (r: bool)
    ensures
        r == is_alnum(c),
{
    (('0' as u8) <= c && c <= ('9' as u8)) || (('A' as u8) <= c && c <= ('Z' as u8)) || (('a' as u8)
        <= c && c <= ('z' as u8))
}

/// Reads the line `b[from..to]` as a node definition.
fn parse_node_line(b: &[u8], from: usize, to: usize) -> (r: Option<Definition>)
    requires
        from <= to <= b@.len(),
    ensures
        r is Some <==> node_line(b@.subrange(from as int, to as int)) is Some,
        r matches Some(d) ==> node_line(b@.subrange(from as int, to as int)) == Some(d@),
{
    let ghost line = b@.subrange(from as int, to as int);
    let ghost lit1 = equals_open();
    let ghost lit2 = comma_space();
    assert(lit1[0] == ' ' as u8 && lit1[1] == '=' as u8 && lit1[2] == ' ' as u8 && lit1[3] == '('
        as u8 && lit1.len() == 4);
    assert(lit2[0] == ',' as u8 && lit2[1] == ' ' as u8 && lit2.len() == 2);
    let name_end = alnum_run(b, from, to);
    let ghost r1 = line.skip(name_end - from);
    assert(r1 =~= b@.subrange(name_end as int, to as int));
    if !(name_end > from && to - name_end >= 4 && b[name_end] == (' ' as u8) && b[name_end + 1] == ('=' as u8) && b[name_end + 2]
        == (' ' as u8) && b[name_end + 3] == ('(' as u8)) {
        proof {
            if r1.len() >= 4 && r1.take(4) == lit1 {
                assert(r1.take(4)[0] == b@[name_end as int]);
                assert(r1.take(4)[1] == b@[name_end + 1]);
                assert(r1.take(4)[2] == b@[name_end + 2]);
                assert(r1.take(4)[3] == b@[name_end + 3]);
            }
        }
        return None;
    }
    assert(r1.take(4) =~= lit1);
    let left_start = name_end + 4;
    let ghost r2 = r1.skip(4);
    assert(r2 =~= b@.subrange(left_start as int, to as int));
    let left_end = alnum_run(b, left_start, to);
    let ghost r3 = r2.skip(left_end - left_start);
    assert(r3 =~= b@.subrange(left_end as int, to as int));
    if !(left_end > left_start && to - left_end >= 2 && b[left_end] == (',' as u8) && b[left_end + 1] == (' ' as u8)) {
        proof {
            if r3.len() >= 2 && r3.take(2) == lit2 {
                assert(r3.take(2)[0] == b@[left_end as int]);
                assert(r3.take(2)[1] == b@[left_end + 1]);
            }
        }
        return None;
    }
    assert(r3.take(2) =~= lit2);
    let right_start = left_end + 2;
    let ghost r4 = r3.skip(2);
    assert(r4 =~= b@.subrange(right_start as int, to as int));
    let right_end = alnum_run(b, right_start, to);
    let ghost r5 = r4.skip(right_end - right_start);
    assert(r5 =~= b@.subrange(right_end as int, to as int));
    if !(right_end > right_start && to - right_end == 1 && b[right_end] == (')' as u8)) {
        proof {
            if r5 == seq![')' as u8] {
                assert(r5[0] == b@[right_end as int]);
                assert(r5.len() == 1);
            }
        }
        return None;
    }
    assert(r5 =~= seq![')' as u8]);
    let name = copy_range(b, from, name_end);
    let left = copy_range(b, left_start, left_end);
    let right = copy_range(b, right_start, right_end);
    assert(name@ =~= line.take(name_end - from));
    assert(left@ =~= r2.take(left_end - left_start));
    assert(right@ =~= r4.take(right_end - right_start));
    Some(Definition { name, left, right })
}

impl NetworkText {
    /// Reads the tape from the first line and a node definition from each
    /// non-empty line after it.
    pub fn parse(input: &str) -> (r: Result<NetworkText, NetworkError>)
        ensures
            r is Ok <==> network_error(input.spec_bytes()) is None,
            r matches Err(e) ==> network_error(input.spec_bytes()) == Some(e),
            r matches Ok(t) ==> t.reads_from(input.spec_bytes()),
    {
        parse_bytes(input.as_bytes())
    }
}

fn parse_bytes(b: &[u8]) -> (r: Result<NetworkText, NetworkError>)
    ensures
        r is Ok <==> network_error(b@) is None,
        r matches Err(e) ==> network_error(b@) == Some(e),
        r matches Ok(t) ==> t.reads_from(b@),
{
    let ghost ls = lines(b@);
    let n = b.len();
    if n == 0 {
        return Err(NetworkError::EmptyTape);
    }
    let e0 = find_line_end(b, 0);
    proof {
        lemma_line_end_bounds(b@, 0);
        assert(lines_from(b@, 0) == seq![b@.subrange(0, e0 as int)] + lines_from(b@, e0 + 1));
        assert(ls[0] == b@.subrange(0, e0 as int));
    }
    if e0 == 0 {
        return Err(NetworkError::EmptyTape);
    }
    let mut tape: Vec<Direction> = Vec::new();
    let mut i: usize = 0;
    while i < e0
        invariant
            e0 <= n == b@.len(),
            ls == lines(b@),
            ls.len() > 0,
            ls[0] == b@.subrange(0, e0 as int),
            i <= e0,
            tape@.len() == i,
            forall|k: int| 0 <= k < i ==> direction_of(#[trigger] ls[0][k]) == Some(tape@[k]),
        decreases e0 - i,
    {
        assert(ls[0][i as int] == b@[i as int]);
        if b[i] == ('L' as u8) {
            tape.push(Direction::Left);
        } else if b[i] == ('R' as u8) {
            tape.push(Direction::Right);
        } else {
            return Err(NetworkError::BadDirection);
        }
        i = i + 1;
    }
    let mut defs: Vec<Definition> = Vec::new();
    let mut p: usize = if e0 < n {
        e0 + 1
    } else {
        n
    };
    let ghost mut done: Seq<Seq<u8>> = Seq::empty();
    assert(ls == seq![ls[0]] + done + lines_from(b@, p as int));
    while p < n
        invariant
            n == b@.len(),
            p <= n,
            ls == lines(b@),
            ls.len() > 0,
            ls[0].len() > 0,
            forall|k: int| 0 <= k < ls[0].len() ==> direction_of(#[trigger] ls[0][k]) is Some,
            ls == seq![ls[0]] + done + lines_from(b@, p as int),
            defs@.map_values(|d: Definition| d@) == node_lines(done),
            forall|y: int| 0 <= y < done.len() ==> (#[trigger] done[y]).len() > 0 ==> node_line(done[y]) is Some,
        decreases n - p,
    {
        let e = find_line_end(b, p);
        proof {
            lemma_line_end_bounds(b@, p as int);
            assert(lines_from(b@, p as int) == seq![b@.subrange(p as int, e as int)]
                + lines_from(b@, e + 1));
        }
        let ghost line = b@.subrange(p as int, e as int);
        assert(ls[done.len() as int + 1] == line);
        let ghost next = done.push(line);
        assert(next.drop_last() == done);
        if e > p {
            match parse_node_line(b, p, e) {
                Some(d) => {
                    defs.push(d);
                    assert(defs@.map_values(|d: Definition| d@) =~= node_lines(next));
                },
                None => {
                    assert((ls[done.len() as int + 1]).len() > 0 && node_line(ls[done.len() as int + 1]) is None);
                    return Err(NetworkError::MalformedLine);
                },
            }
        }
        proof {
            assert forall|y: int| 0 <= y < next.len() && (#[trigger] next[y]).len() > 0 implies node_line(next[y]) is Some by {
                if y < done.len() {
                    assert(next[y] == done[y]);
                }
            }
            done = next;
            assert(ls == seq![ls[0]] + done + lines_from(b@, e + 1));
        }
        p = if e < n {
            e + 1
        } else {
            n
        };
    }
    proof {
        assert(ls.skip(1) =~= done);
        assert forall|y: int| 1 <= y < ls.len() && (#[trigger] ls[y]).len() > 0 implies node_line(ls[y]) is Some by {
            assert(ls[y] == done[y - 1]);
        }
    }
    Ok(NetworkText { tape, defs })
}

// Building the graph.

/// The node definitions as plain values.
pub open spec fn defs_of(defs: Seq<Definition>) -> Seq<(Seq<u8>, Seq<u8>, Seq<u8>)> {
    defs.map_values(|d: Definition| d@)
}

/// Index of the definition of `name`: the last line that defines it.
pub open spec fn def_index(defs: Seq<(Seq<u8>, Seq<u8>, Seq<u8>)>, name: Seq<u8>) -> Option<int>
    decreases defs.len(),
{
    if defs.len() == 0 {
        None
    } else if defs.last().0 == name {
        Some(defs.len() - 1)
    } else {
        def_index(defs.drop_last(), name)
    }
}

/// The left and right successors that the definitions give `name`.
pub open spec fn successors(defs: Seq<(Seq<u8>, Seq<u8>, Seq<u8>)>, name: Seq<u8>) -> Option<
    (Seq<u8>, Seq<u8>),
> {
    match def_index(defs, name) {
        Some(i) => Some((defs[i].1, defs[i].2)),
        None => None,
    }
}

/// Every defined name in `s` has its successors in `s`.
pub open spec fn closed_names(defs: Seq<(Seq<u8>, Seq<u8>, Seq<u8>)>, s: Set<Seq<u8>>) -> bool {
    forall|n: Seq<u8>|
        #[trigger] s.contains(n) && successors(defs, n) is Some ==> s.contains(
            successors(defs, n)->Some_0.0,
        ) && s.contains(successors(defs, n)->Some_0.1)
}

/// `n` is reached from the starting names by following successors: it lies
/// in every closed set of names that holds them.
pub open spec fn required(
    defs: Seq<(Seq<u8>, Seq<u8>, Seq<u8>)>,
    origins: Set<Seq<u8>>,
    n: Seq<u8>,
) -> bool {
    forall|s: Set<Seq<u8>>| closed_names(defs, s) && origins.subset_of(s) ==> #[trigger] s.contains(n)
}

pub proof fn lemma_def_index(defs: Seq<(Seq<u8>, Seq<u8>, Seq<u8>)>, name: Seq<u8>)
    ensures
        def_index(defs, name) matches Some(i) ==> 0 <= i < defs.len() && defs[i].0 == name,
        def_index(defs, name) is None ==> forall|i: int| 0 <= i < defs.len() ==> defs[i].0 != name,
    decreases defs.len(),
{
    if defs.len() > 0 && defs.last().0 != name {
        lemma_def_index(defs.drop_last(), name);
        if def_index(defs, name) is None {
            assert forall|i: int| 0 <= i < defs.len() implies defs[i].0 != name by {
                if i < defs.len() - 1 {
                    assert(defs[i] == defs.drop_last()[i]);
                }
            }
        }
    }
}

/// A node of the arena: its name and the arena indices of its left and right
/// successors.
#[derive(Debug)]
pub struct Node {
    name: Vec<u8>,
    children: [usize; 2],
}

impl Node {
    pub closed spec fn name(&self) -> Seq<u8> {
        self.name@
    }

    pub closed spec fn child(&self, d: Direction) -> int {
        match d {
            Direction::Left => self.children@[0] as int,
            Direction::Right => self.children@[1] as int,
        }
    }

    /// The arena index of the successor in `direction`.
    pub fn get(&self, direction: Direction) -> (r: usize)
        ensures
            r == self.child(direction),
    {
        match direction {
            Direction::Left => self.children[0],
            Direction::Right => self.children[1],
        }
    }

    pub fn name_bytes(&self) -> (r: &Vec<u8>)
        ensures
            r@ == self.name(),
    {
        &self.name
    }
}

/// The node at `k` has both successors in the arena, named as the
/// definitions say.
pub open spec fn complete(defs: Seq<(Seq<u8>, Seq<u8>, Seq<u8>)>, arena: Seq<Node>, k: int) -> bool {
    let nd = arena[k];
    &&& 0 <= nd.child(Direction::Left) < arena.len()
    &&& 0 <= nd.child(Direction::Right) < arena.len()
    &&& successors(defs, nd.name()) == Some(
        (arena[nd.child(Direction::Left)].name(), arena[nd.child(Direction::Right)].name()),
    )
}

/// `slots` maps each definition that is the one of its name to the arena
/// node made for it, and each arena node has its slot.
pub open spec fn registered(
    defs: Seq<(Seq<u8>, Seq<u8>, Seq<u8>)>,
    slots: Seq<Option<usize>>,
    arena: Seq<Node>,
) -> bool {
    &&& slots.len() == defs.len()
    &&& forall|j: int|
        0 <= j < slots.len() && #[trigger] slots[j] is Some ==> {
            let k = slots[j]->Some_0 as int;
            &&& k < arena.len()
            &&& def_index(defs, defs[j].0) == Some(j)
            &&& arena[k].name() == defs[j].0
        }
    &&& forall|k: int|
        0 <= k < arena.len() ==> {
            &&& def_index(defs, (#[trigger] arena[k]).name()) is Some
            &&& slots[def_index(defs, arena[k].name())->Some_0] == Some(k as usize)
        }
}

/// Number of empty slots.
pub open spec fn count_free(s: Seq<Option<usize>>) -> nat
    decreases s.len(),
{
    if s.len() == 0 {
        0
    } else {
        count_free(s.drop_last()) + if s.last() is None {
            1nat
        } else {
            0nat
        }
    }
}

pub proof fn lemma_count_free_fill(s: Seq<Option<usize>>, i: int, v: usize)
    requires
        0 <= i < s.len(),
        s[i] is None,
    ensures
        count_free(s.update(i, Some(v))) + 1 == count_free(s),
    decreases s.len(),
{
    let t = s.update(i, Some(v));
    if i == s.len() - 1 {
        assert(t.drop_last() =~= s.drop_last());
    } else {
        assert(t.drop_last() =~= s.drop_last().update(i, Some(v)));
        lemma_count_free_fill(s.drop_last(), i, v);
    }
}

fn same_bytes(a: &Vec<u8>, b: &Vec<u8>) -> (r: bool)
    ensures
        r == (a@ == b@),
{
    if a.len() != b.len() {
        return false;
    }
    let mut i: usize = 0;
    while i < a.len()
        invariant
            a@.len() == b@.len(),
            i <= a@.len(),
            forall|k: int| 0 <= k < i ==> a@[k] == b@[k],
        decreases a@.len() - i,
    {
        if a[i] != b[i] {
            return false;
        }
        i = i + 1;
    }
    assert(a@ =~= b@);
    true
}

fn copy_bytes(a: &Vec<u8>) -> (r: Vec<u8>)
    ensures
        r@ == a@,
{
    let r = copy_range(a.as_slice(), 0, a.len());
    assert(a@.subrange(0, a@.len() as int) =~= a@);
    r
}

/// Finds the line that defines `name`.
fn find_def(defs: &Vec<Definition>, name: &Vec<u8>) -> (r: Option<usize>)
    ensures
        match r {
            Some(j) => def_index(defs_of(defs@), name@) == Some(j as int),
            None => def_index(defs_of(defs@), name@) is None,
        },
{
    let ghost dv = defs_of(defs@);
    let mut i = defs.len();
    assert(dv.take(i as int) =~= dv);
    while i > 0
        invariant
            i <= defs@.len(),
            dv == defs_of(defs@),
            def_index(dv, name@) == def_index(dv.take(i as int), name@),
        decreases i,
    {
        assert(dv.take(i as int).last() == dv[i - 1]);
        if same_bytes(&defs[i - 1].name, name) {
            return Some(i - 1);
        }
        assert(dv.take(i as int).drop_last() =~= dv.take(i - 1));
        i = i - 1;
    }
    None
}

/// `n` is reached from `from` by following successors: it lies in every
/// closed set of names that holds `from`.
pub open spec fn reaches(defs: Seq<(Seq<u8>, Seq<u8>, Seq<u8>)>, from: Seq<u8>, n: Seq<u8>) -> bool {
    forall|s: Set<Seq<u8>>| closed_names(defs, s) && s.contains(from) ==> #[trigger] s.contains(n)
}

/// The state that the arena, its slots and the set of nodes still being
/// built keep between steps of the construction.
pub open spec fn arena_ok(
    defs: Seq<(Seq<u8>, Seq<u8>, Seq<u8>)>,
    origins: Set<Seq<u8>>,
    slots: Seq<Option<usize>>,
    arena: Seq<Node>,
    pending: Set<int>,
) -> bool {
    &&& registered(defs, slots, arena)
    &&& forall|k: int| 0 <= k < arena.len() ==> pending.contains(k) || complete(defs, arena, k)
    &&& forall|k: int| 0 <= k < arena.len() ==> required(defs, origins, (#[trigger] arena[k]).name())
}

/// Makes the node `name`, and first the nodes it leads to, unless the slots
/// show it made already. The node is entered in the arena and in its slot
/// before its successors are made, so that a cycle back to it finds it.
fn create_recursive(
    name: &Vec<u8>,
    defs: &Vec<Definition>,
    slots: &mut Vec<Option<usize>>,
    arena: &mut Vec<Node>,
    Ghost(origins): Ghost<Set<Seq<u8>>>,
    Ghost(pending): Ghost<Set<int>>,
) -> (r: Result<usize, NetworkError>)
    requires
        arena_ok(defs_of(defs@), origins, old(slots)@, old(arena)@, pending),
        required(defs_of(defs@), origins, name@),
    ensures
        r is Ok ==> arena_ok(defs_of(defs@), origins, final(slots)@, final(arena)@, pending),
        final(arena)@.len() >= old(arena)@.len(),
        forall|k: int| 0 <= k < old(arena)@.len() ==> final(arena)@[k] == old(arena)@[k],
        count_free(final(slots)@) <= count_free(old(slots)@),
        r matches Ok(k) ==> k < final(arena)@.len() && final(arena)@[k as int].name() == name@,
        r matches Err(e) ==> e == NetworkError::UndefinedNode && exists|n: Seq<u8>|
            required(defs_of(defs@), origins, n) && #[trigger] successors(defs_of(defs@), n) is None,
        final(slots)@.len() == old(slots)@.len(),
        forall|i: int|
            0 <= i < old(slots)@.len() && (#[trigger] old(slots)@[i]) is Some ==> final(slots)@[i]
                == old(slots)@[i],
        def_index(defs_of(defs@), name@) is Some && old(slots)@[def_index(
            defs_of(defs@),
            name@,
        )->Some_0] is Some ==> {
            &&& r == Ok::<usize, NetworkError>(
                old(slots)@[def_index(defs_of(defs@), name@)->Some_0]->Some_0,
            )
            &&& final(arena)@ == old(arena)@
            &&& final(slots)@ == old(slots)@
        },
        r is Ok ==> forall|i: int|
            old(arena)@.len() <= i < final(arena)@.len() ==> reaches(
                defs_of(defs@),
                name@,
                (#[trigger] final(arena)@[i]).name(),
            ) && old(slots)@[def_index(defs_of(defs@), final(arena)@[i].name())->Some_0] is None,
    decreases count_free(old(slots)@),
{
    let ghost dv = defs_of(defs@);
    let j = match find_def(defs, name) {
        Some(j) => j,
        None => {
            assert(successors(dv, name@) is None);
            return Err(NetworkError::UndefinedNode);
        },
    };
    proof {
        lemma_def_index(dv, name@);
        assert(dv[j as int] == defs@[j as int]@);
    }
    match slots[j] {
        Some(k) => {
            return Ok(k);
        },
        None => {},
    }
    let k = arena.len();
    let placeholder = copy_bytes(name);
    arena.push(Node { name: placeholder, children: [0, 0] });
    proof {
        lemma_count_free_fill(slots@, j as int, k);
    }
    slots[j] = Some(k);
    let ghost inner = pending.insert(k as int);
    proof {
        assert(arena@[k as int].name() == name@);
        assert forall|i: int| 0 <= i < arena@.len() implies def_index(dv, (#[trigger] arena@[i]).name()) is Some
            && slots@[def_index(dv, arena@[i].name())->Some_0] == Some(i as usize) by {
            if i < k {
                assert(arena@[i] == old(arena)@[i]);
                lemma_def_index(dv, arena@[i].name());
                let ji = def_index(dv, arena@[i].name())->Some_0;
                if ji == j {
                    assert(old(slots)@[ji] == Some(i as usize));
                }
            }
        }
        assert forall|i: int| 0 <= i < arena@.len() implies inner.contains(i) || complete(dv, arena@, i) by {
            if i < k {
                assert(arena@[i] == old(arena)@[i]);
                if !pending.contains(i) {
                    let nd = arena@[i];
                    assert(arena@[nd.child(Direction::Left)] == old(arena)@[nd.child(Direction::Left)]);
                    assert(arena@[nd.child(Direction::Right)] == old(arena)@[nd.child(Direction::Right)]);
                }
            }
        }
        assert forall|i: int| 0 <= i < arena@.len() implies required(dv, origins, (#[trigger] arena@[i]).name()) by {
            if i < k {
                assert(arena@[i] == old(arena)@[i]);
            }
        }
        assert forall|t: Set<Seq<u8>>| closed_names(dv, t) && origins.subset_of(t) implies #[trigger] t.contains(
            dv[j as int].1,
        ) by {
            assert(t.contains(name@));
        }
        assert forall|t: Set<Seq<u8>>| closed_names(dv, t) && origins.subset_of(t) implies #[trigger] t.contains(
            dv[j as int].2,
        ) by {
            assert(t.contains(name@));
        }
        assert(required(dv, origins, defs@[j as int].right@));
    }
    let ghost s1 = slots@;
    assert forall|i: int| 0 <= i < old(slots)@.len() && (#[trigger] old(slots)@[i]) is Some implies s1[i]
        == old(slots)@[i] && s1[i] is Some by {
        assert(i != j);
    }
    let left = match create_recursive(&defs[j].left, defs, slots, arena, Ghost(origins), Ghost(inner)) {
        Ok(v) => v,
        Err(e) => {
            assert forall|i: int| 0 <= i < old(slots)@.len() && (#[trigger] old(slots)@[i]) is Some implies slots@[i]
                == old(slots)@[i] by {
                assert(s1[i] is Some);
            }
            return Err(e);
        },
    };
    let ghost s2 = slots@;
    let ghost a2 = arena@;
    assert forall|i: int| 0 <= i < old(slots)@.len() && (#[trigger] old(slots)@[i]) is Some implies s2[i]
        == old(slots)@[i] && s2[i] is Some by {
        assert(s1[i] is Some);
    }
    let right = match create_recursive(&defs[j].right, defs, slots, arena, Ghost(origins), Ghost(inner)) {
        Ok(v) => v,
        Err(e) => {
            assert forall|i: int| 0 <= i < old(slots)@.len() && (#[trigger] old(slots)@[i]) is Some implies slots@[i]
                == old(slots)@[i] by {
                assert(s2[i] is Some);
            }
            return Err(e);
        },
    };
    assert forall|i: int| 0 <= i < old(slots)@.len() && (#[trigger] old(slots)@[i]) is Some implies slots@[i]
        == old(slots)@[i] by {
        assert(s2[i] is Some);
    }
    let ghost before = arena@;
    let filled = copy_bytes(name);
    arena[k] = Node { name: filled, children: [left, right] };
    proof {
        assert(arena@[k as int].child(Direction::Left) == left);
        assert(arena@[k as int].child(Direction::Right) == right);
        assert(arena@[left as int].name() == dv[j as int].1) by {
            if left == k {
                assert(dv[j as int].1 == name@);
            } else {
                assert(arena@[left as int] == before[left as int]);
            }
        }
        assert(arena@[right as int].name() == dv[j as int].2) by {
            if right == k {
                assert(dv[j as int].2 == name@);
            } else {
                assert(arena@[right as int] == before[right as int]);
            }
        }
        assert(complete(dv, arena@, k as int));
        assert forall|i: int| 0 <= i < arena@.len() implies def_index(dv, (#[trigger] arena@[i]).name()) is Some
            && slots@[def_index(dv, arena@[i].name())->Some_0] == Some(i as usize) by {
            if i != k {
                assert(arena@[i] == before[i]);
            }
        }
        assert forall|i: int| 0 <= i < arena@.len() implies pending.contains(i) || complete(dv, arena@, i) by {
            if i != k {
                assert(arena@[i] == before[i]);
                if !inner.contains(i) {
                    let nd = arena@[i];
                    if nd.child(Direction::Left) != k {
                        assert(arena@[nd.child(Direction::Left)] == before[nd.child(Direction::Left)]);
                    }
                    if nd.child(Direction::Right) != k {
                        assert(arena@[nd.child(Direction::Right)] == before[nd.child(Direction::Right)]);
                    }
                }
            }
        }
        assert forall|i: int| 0 <= i < arena@.len() implies required(dv, origins, (#[trigger] arena@[i]).name()) by {
            if i != k {
                assert(arena@[i] == before[i]);
            }
        }
        assert forall|t: Set<Seq<u8>>| closed_names(dv, t) && t.contains(name@) implies #[trigger] t.contains(
            dv[j as int].1,
        ) && t.contains(dv[j as int].2) by {
            assert(successors(dv, name@) == Some((dv[j as int].1, dv[j as int].2)));
        }
        assert forall|i: int| old(arena)@.len() <= i < arena@.len() implies reaches(
            dv,
            name@,
            (#[trigger] arena@[i]).name(),
        ) && old(slots)@[def_index(dv, arena@[i].name())->Some_0] is None by {
            let ni = arena@[i].name();
            let ji = def_index(dv, ni)->Some_0;
            lemma_def_index(dv, ni);
            if i == k {
                assert(ni == name@);
            } else if i < a2.len() {
                assert(arena@[i] == a2[i]);
                assert(reaches(dv, dv[j as int].1, ni));
                assert(s1[ji] is None);
                if old(slots)@[ji] is Some {
                    assert(s1[ji] is Some);
                }
            } else {
                assert(arena@[i] == before[i]);
                assert(reaches(dv, dv[j as int].2, ni));
                assert(s2[ji] is None);
                if old(slots)@[ji] is Some {
                    assert(s1[ji] is Some);
                    assert(s2[ji] is Some);
                }
            }
        }
    }
    Ok(k)
}

/// The names of the starting nodes.
pub open spec fn name_set(origins: Seq<Vec<u8>>) -> Set<Seq<u8>> {
    Set::new(|n: Seq<u8>| exists|i: int| 0 <= i < origins.len() && (#[trigger] origins[i])@ == n)
}

/// What a walk is looking for: a node of a given name, or any node whose
/// name ends with a given byte.
#[derive(Debug)]
pub enum Goal {
    Named(Vec<u8>),
    EndsWith(u8),
}

/// A goal as plain values.
pub enum Target {
    Named(Seq<u8>),
    EndsWith(u8),
}

impl Target {
    pub open spec fn met(self, name: Seq<u8>) -> bool {
        match self {
            Target::Named(v) => name == v,
            Target::EndsWith(c) => name.len() > 0 && name.last() == c,
        }
    }
}

impl View for Goal {
    type V = Target;

    open spec fn view(&self) -> Target {
        match self {
            Goal::Named(v) => Target::Named(v@),
            Goal::EndsWith(c) => Target::EndsWith(*c),
        }
    }
}

impl Goal {
    pub open spec fn met(&self, name: Seq<u8>) -> bool {
        self@.met(name)
    }

    pub fn is_met(&self, name: &Vec<u8>) -> (r: bool)
        ensures
            r == self.met(name@),
    {
        match self {
            Goal::Named(v) => same_bytes(name, v),
            Goal::EndsWith(c) => name.len() > 0 && name[name.len() - 1] == *c,
        }
    }
}

/// The arena of nodes, the node a walk stands on and the tape that steers it.
#[derive(Debug)]
pub struct NodeMap {
    nodes: Vec<Node>,
    current_node: usize,
    instructions: Instructions,
}

impl NodeMap {
    pub closed spec fn nodes(&self) -> Seq<Node> {
        self.nodes@
    }

    pub closed spec fn current(&self) -> int {
        self.current_node as int
    }

    pub closed spec fn tape(&self) -> Seq<Direction> {
        self.instructions.tape()
    }

    pub closed spec fn position(&self) -> int {
        self.instructions.position()
    }

    pub open spec fn wf(&self) -> bool {
        &&& 0 <= self.position() < self.tape().len()
        &&& 0 <= self.current() < self.nodes().len()
        &&& forall|k: int, d: Direction|
            0 <= k < self.nodes().len() ==> 0 <= #[trigger] self.nodes()[k].child(d) < self.nodes().len()
    }

    /// The names of the nodes of the arena.
    pub open spec fn names(&self) -> Set<Seq<u8>> {
        Set::new(|n: Seq<u8>| exists|k: int| 0 <= k < self.nodes().len() && #[trigger] self.nodes()[k].name() == n)
    }

    /// Each name of the arena with the names of its two successors.
    pub open spec fn shape(&self) -> Map<Seq<u8>, (Seq<u8>, Seq<u8>)> {
        Map::new(
            |n: Seq<u8>| self.names().contains(n),
            |n: Seq<u8>|
                {
                    let k = choose|k: int| 0 <= k < self.nodes().len() && #[trigger] self.nodes()[k].name() == n;
                    let nd = self.nodes()[k];
                    (self.nodes()[nd.child(Direction::Left)].name(), self.nodes()[nd.child(Direction::Right)].name())
                },
        )
    }

    /// The arena is the graph that the definitions give, from the nodes
    /// named `origins` on: every node is complete, needed, and named once.
    pub open spec fn built_from(
        &self,
        defs: Seq<(Seq<u8>, Seq<u8>, Seq<u8>)>,
        origins: Set<Seq<u8>>,
    ) -> bool {
        &&& self.wf()
        &&& forall|k: int| 0 <= k < self.nodes().len() ==> complete(defs, self.nodes(), k)
        &&& forall|k: int|
            0 <= k < self.nodes().len() ==> required(defs, origins, (#[trigger] self.nodes()[k]).name())
        &&& forall|k1: int, k2: int|
            0 <= k1 < self.nodes().len() && 0 <= k2 < self.nodes().len() && (#[trigger] self.nodes()[k1]).name()
                == (#[trigger] self.nodes()[k2]).name() ==> k1 == k2
        &&& origins.subset_of(self.names())
    }

    /// Builds the graph from the nodes named `origins` on. The walk stands on
    /// the last of them; the tape is at its start.
    pub fn from(text: &NetworkText, origins: &Vec<Vec<u8>>) -> (r: Result<NodeMap, NetworkError>)
        ensures
            r matches Err(e) ==> {
                ||| text.tape@.len() == 0 && e == NetworkError::EmptyTape
                ||| text.tape@.len() > 0 && origins@.len() == 0 && e == NetworkError::NoOrigin
                ||| e == NetworkError::UndefinedNode && exists|n: Seq<u8>|
                    required(text.defs_view(), name_set(origins@), n) && #[trigger] successors(
                        text.defs_view(),
                        n,
                    ) is None
            },
            r matches Ok(m) ==> {
                &&& text.tape@.len() > 0
                &&& origins@.len() > 0
                &&& m.built_from(text.defs_view(), name_set(origins@))
                &&& m.tape() == text.tape@
                &&& m.position() == 0
                &&& m.nodes()[m.current()].name() == origins@.last()@
            },
            text.tape@.len() > 0 && origins@.len() > 0 && (forall|n: Seq<u8>|
                required(text.defs_view(), name_set(origins@), n) ==> #[trigger] successors(
                    text.defs_view(),
                    n,
                ) is Some) ==> r is Ok,
    {
        if text.tape.len() == 0 {
            return Err(NetworkError::EmptyTape);
        }
        if origins.len() == 0 {
            return Err(NetworkError::NoOrigin);
        }
        let ghost dv = defs_of(text.defs@);
        let ghost os = name_set(origins@);
        assert(dv == text.defs_view());
        let mut slots: Vec<Option<usize>> = Vec::new();
        while slots.len() < text.defs.len()
            invariant
                slots@.len() <= text.defs@.len(),
                forall|j: int| 0 <= j < slots@.len() ==> slots@[j] is None,
            decreases text.defs@.len() - slots@.len(),
        {
            slots.push(None);
        }
        let mut arena: Vec<Node> = Vec::new();
        let mut current: usize = 0;
        let mut i: usize = 0;
        while i < origins.len()
            invariant
                dv == defs_of(text.defs@),
                dv == text.defs_view(),
                os == name_set(origins@),
                0 < origins@.len(),
                i <= origins@.len(),
                arena_ok(dv, os, slots@, arena@, Set::empty()),
                forall|k: int| 0 <= k < i ==> exists|a: int| 0 <= a < arena@.len() && #[trigger] arena@[a].name() == (#[trigger] origins@[k])@,
                i > 0 ==> current < arena@.len() && arena@[current as int].name() == origins@[i - 1]@,
            decreases origins@.len() - i,
        {
            proof {
                assert forall|t: Set<Seq<u8>>| closed_names(dv, t) && os.subset_of(t) implies #[trigger] t.contains(origins@[i as int]@) by {
                    assert(os.contains(origins@[i as int]@));
                }
            }
            let ghost before = arena@;
            let k = match create_recursive(&origins[i], &text.defs, &mut slots, &mut arena, Ghost(os), Ghost(Set::empty())) {
                Ok(k) => k,
                Err(e) => {
                    return Err(e);
                },
            };
            proof {
                assert forall|q: int| 0 <= q < i + 1 implies exists|a: int| 0 <= a < arena@.len() && #[trigger] arena@[a].name() == (#[trigger] origins@[q])@ by {
                    if q < i {
                        let a = choose|a: int| 0 <= a < before.len() && #[trigger] before[a].name() == origins@[q]@;
                        assert(arena@[a] == before[a]);
                    } else {
                        assert(arena@[k as int].name() == origins@[q]@);
                    }
                }
            }
            current = k;
            i = i + 1;
        }
        let instructions = Instructions::new(copy_tape(&text.tape));
        let ghost ar = arena@;
        let count = arena.len();
        let m = NodeMap { nodes: arena, current_node: current, instructions };
        assert(m.nodes() == ar);
        proof {
            assert forall|k: int, d: Direction| 0 <= k < m.nodes().len() implies 0 <= #[trigger] m.nodes()[k].child(d) < m.nodes().len() by {
                assert(!Set::<int>::empty().contains(k));
                assert(complete(dv, ar, k));
            }
            assert forall|k1: int, k2: int|
                0 <= k1 < m.nodes().len() && 0 <= k2 < m.nodes().len() && (#[trigger] m.nodes()[k1]).name()
                    == (#[trigger] m.nodes()[k2]).name() implies k1 == k2 by {
                assert(registered(dv, slots@, ar));
                assert(ar[k1] == m.nodes()[k1] && ar[k2] == m.nodes()[k2]);
                assert(def_index(dv, ar[k1].name()) is Some);
                let j = def_index(dv, ar[k1].name())->Some_0;
                assert(slots@[j] == Some(k1 as usize));
                assert(slots@[j] == Some(k2 as usize));
            }
            assert forall|n: Seq<u8>| os.contains(n) implies m.names().contains(n) by {
                let q = choose|q: int| 0 <= q < origins@.len() && (#[trigger] origins@[q])@ == n;
                let a = choose|a: int| 0 <= a < ar.len() && #[trigger] ar[a].name() == (#[trigger] origins@[q])@;
                assert(m.nodes()[a].name() == n);
            }
            assert forall|k: int| 0 <= k < m.nodes().len() implies complete(dv, m.nodes(), k) by {
                assert(!Set::<int>::empty().contains(k));
            }
        }
        Ok(m)
    }
}

impl NodeMap {
    proof fn lemma_names_required(&self, defs: Seq<(Seq<u8>, Seq<u8>, Seq<u8>)>, origins: Set<Seq<u8>>)
        requires
            self.built_from(defs, origins),
        ensures
            forall|n: Seq<u8>| #[trigger] self.names().contains(n) ==> required(defs, origins, n),
    {
        assert forall|n: Seq<u8>| #[trigger] self.names().contains(n) implies required(defs, origins, n) by {
            let k = choose|k: int| 0 <= k < self.nodes().len() && #[trigger] self.nodes()[k].name() == n;
            assert(required(defs, origins, self.nodes()[k].name()));
        }
    }

    /// Each successor of a node is the arena's one node of that name: a node
    /// defined as its own successor points to itself, and nodes that name
    /// each other point to each other, with no copies made.
    pub proof fn lemma_children_resolved(
        &self,
        defs: Seq<(Seq<u8>, Seq<u8>, Seq<u8>)>,
        origins: Set<Seq<u8>>,
        k: int,
        q: int,
    )
        requires
            self.built_from(defs, origins),
            0 <= k < self.nodes().len(),
            0 <= q < self.nodes().len(),
        ensures
            self.nodes()[q].name() == successors(defs, self.nodes()[k].name())->Some_0.0
                ==> self.nodes()[k].child(Direction::Left) == q,
            self.nodes()[q].name() == successors(defs, self.nodes()[k].name())->Some_0.1
                ==> self.nodes()[k].child(Direction::Right) == q,
            successors(defs, self.nodes()[k].name()) is Some,
    {
        assert(complete(defs, self.nodes(), k));
        let l = self.nodes()[k].child(Direction::Left);
        let r = self.nodes()[k].child(Direction::Right);
        assert(self.nodes()[l].name() == successors(defs, self.nodes()[k].name())->Some_0.0);
        assert(self.nodes()[r].name() == successors(defs, self.nodes()[k].name())->Some_0.1);
    }

    proof fn lemma_names_closed(&self, defs: Seq<(Seq<u8>, Seq<u8>, Seq<u8>)>, origins: Set<Seq<u8>>)
        requires
            self.built_from(defs, origins),
        ensures
            closed_names(defs, self.names()),
            forall|n: Seq<u8>| #[trigger] self.names().contains(n) ==> successors(defs, n) is Some
                && self.shape()[n] == successors(defs, n)->Some_0,
    {
        assert forall|n: Seq<u8>| #[trigger] self.names().contains(n) implies successors(defs, n) is Some
            && self.shape()[n] == successors(defs, n)->Some_0 && self.names().contains(
            successors(defs, n)->Some_0.0,
        ) && self.names().contains(successors(defs, n)->Some_0.1) by {
            let k = choose|k: int| 0 <= k < self.nodes().len() && #[trigger] self.nodes()[k].name() == n;
            assert(complete(defs, self.nodes(), k));
            let nd = self.nodes()[k];
            assert(self.nodes()[nd.child(Direction::Left)].name() == successors(defs, n)->Some_0.0);
            assert(self.nodes()[nd.child(Direction::Right)].name() == successors(defs, n)->Some_0.1);
        }
    }
}

impl NodeMap {
    /// Node and tape position of a walk from node `start`, with the tape at
    /// its start, after `s` steps.
    pub open spec fn cursor(&self, start: int, s: nat) -> (int, int)
        decreases s,
    {
        if s == 0 {
            (start, 0)
        } else {
            let (k, t) = self.cursor(start, (s - 1) as nat);
            (self.nodes()[k].child(self.tape()[t]), (t + 1) % (self.tape().len() as int))
        }
    }

    /// The walk from `start` meets `goal` after `s` steps, and not before.
    pub open spec fn first_arrival(&self, start: int, goal: Target, s: nat) -> bool {
        &&& s >= 1
        &&& goal.met(self.nodes()[self.cursor(start, s).0].name())
        &&& forall|e: nat| 1 <= e < s ==> !goal.met(self.nodes()[#[trigger] self.cursor(start, e).0].name())
    }

    /// The number of distinct states of a walk, node by tape position,
    /// capped at `u64::MAX`.
    pub open spec fn step_cap(&self) -> int {
        let states = self.nodes().len() as int * self.tape().len() as int;
        if states > u64::MAX {
            u64::MAX as int
        } else {
            states
        }
    }

    proof fn lemma_cursor_inside(&self, start: int, s: nat)
        requires
            self.wf(),
            0 <= start < self.nodes().len(),
        ensures
            0 <= self.cursor(start, s).0 < self.nodes().len(),
            0 <= self.cursor(start, s).1 < self.tape().len(),
        decreases s,
    {
        if s > 0 {
            self.lemma_cursor_inside(start, (s - 1) as nat);
            let (k, t) = self.cursor(start, (s - 1) as nat);
            assert(0 <= self.nodes()[k].child(self.tape()[t]) < self.nodes().len());
        }
    }

    /// Two steps in the same state stay in the same state.
    proof fn lemma_cursor_shift(&self, start: int, a: nat, b: nat, m: nat)
        requires
            self.cursor(start, a) == self.cursor(start, b),
        ensures
            self.cursor(start, a + m) == self.cursor(start, b + m),
        decreases m,
    {
        if m > 0 {
            self.lemma_cursor_shift(start, a, b, (m - 1) as nat);
            assert(self.cursor(start, a + m) == self.cursor(start, b + m)) by {
                assert((a + m - 1) as nat == (a + (m - 1)) as nat);
                assert((b + m - 1) as nat == (b + (m - 1)) as nat);
            }
        }
    }

    /// There are as many states as node and tape position pairs.
    proof fn lemma_state_count(n: int, t: int)
        requires
            n >= 0,
            t > 0,
        ensures
            Set::new(|p: (int, int)| 0 <= p.0 < n && 0 <= p.1 < t).finite(),
            Set::new(|p: (int, int)| 0 <= p.0 < n && 0 <= p.1 < t).len() == n * t,
    {
        let states = Set::new(|p: (int, int)| 0 <= p.0 < n && 0 <= p.1 < t);
        let g = |i: int| (i / t, i % t);
        let range = set_int_range(0, n * t);
        lemma_int_range(0, n * t);
        assert forall|i: int, j: int|
            range.contains(i) && range.contains(j) && #[trigger] g(i) == #[trigger] g(j) implies i == j by {
            vstd::arithmetic::div_mod::lemma_fundamental_div_mod(i, t);
            vstd::arithmetic::div_mod::lemma_fundamental_div_mod(j, t);
        }
        assert forall|p: (int, int)| states.contains(p) <==> #[trigger] range.map(g).contains(p) by {
            if states.contains(p) {
                let i = p.0 * t + p.1;
                assert(0 <= i < n * t) by (nonlinear_arith)
                    requires
                        0 <= p.0 < n,
                        0 <= p.1 < t,
                        i == p.0 * t + p.1,
                ;
                vstd::arithmetic::div_mod::lemma_fundamental_div_mod_converse(i, t, p.0, p.1);
                assert(range.contains(i) && g(i) == p);
            }
            if range.map(g).contains(p) {
                let i = choose|i: int| range.contains(i) && g(i) == p;
                assert(0 <= i / t < n && 0 <= i % t < t) by {
                    crate::pipe_maze::lemma_div_below(i, t, n);
                    assert(t * n == n * t) by (nonlinear_arith);
                }
            }
        }
        assert(range.map(g) =~= states);
        lemma_map_size(range, states, g);
    }

    /// Among the first `N * T + 1` states of a walk, where the arena has `N`
    /// nodes and the tape `T` positions, two are equal.
    proof fn lemma_state_repeats(&self, start: int)
        requires
            self.wf(),
            0 <= start < self.nodes().len(),
        ensures
            exists|a: nat, b: nat|
                a < b <= self.nodes().len() * self.tape().len() && #[trigger] self.cursor(start, a)
                    == #[trigger] self.cursor(start, b),
    {
        let n = self.nodes().len() as int * self.tape().len() as int;
        let f = |s: int| self.cursor(start, s as nat);
        let range = set_int_range(0, n + 1);
        let states = Set::new(
            |p: (int, int)| 0 <= p.0 < self.nodes().len() && 0 <= p.1 < self.tape().len(),
        );
        if !exists|a: nat, b: nat|
            a < b <= n && #[trigger] self.cursor(start, a) == #[trigger] self.cursor(start, b) {
            lemma_int_range(0, n + 1);
            assert forall|i: int, j: int|
                range.contains(i) && range.contains(j) && #[trigger] f(i) == #[trigger] f(j) implies i
                == j by {
                if i < j {
                    assert(self.cursor(start, i as nat) == self.cursor(start, j as nat));
                } else if j < i {
                    assert(self.cursor(start, j as nat) == self.cursor(start, i as nat));
                }
            }
            lemma_map_size(range, range.map(f), f);
            assert forall|p: (int, int)| #[trigger] range.map(f).contains(p) implies states.contains(p) by {
                let i = choose|i: int| range.contains(i) && f(i) == p;
                self.lemma_cursor_inside(start, i as nat);
            }
            Self::lemma_state_count(self.nodes().len() as int, self.tape().len() as int);
            lemma_len_subset(range.map(f), states);
        }
    }

    /// Every state of a walk is one of its states before step `b`, where the
    /// states at `a` and `b` are equal.
    proof fn lemma_state_reduce(&self, start: int, a: nat, b: nat, s: nat) -> (e: nat)
        requires
            a < b,
            self.cursor(start, a) == self.cursor(start, b),
        ensures
            e < b,
            e == s || a <= e,
            self.cursor(start, e) == self.cursor(start, s),
        decreases s,
    {
        if s < b {
            s
        } else {
            let m = (s - b) as nat;
            self.lemma_cursor_shift(start, a, b, m);
            assert(b + m == s);
            self.lemma_state_reduce(start, a, b, (a + m) as nat)
        }
    }

    /// A walk that meets its goal at some step meets it within the first
    /// `N * T` steps.
    pub proof fn lemma_arrives_early(&self, start: int, goal: Target, s: nat)
        requires
            self.wf(),
            0 <= start < self.nodes().len(),
            s >= 1,
            goal.met(self.nodes()[self.cursor(start, s).0].name()),
        ensures
            exists|e: nat|
                1 <= e <= self.nodes().len() * self.tape().len() && goal.met(
                    self.nodes()[#[trigger] self.cursor(start, e).0].name(),
                ),
    {
        self.lemma_state_repeats(start);
        let (a, b) = choose|a: nat, b: nat|
            a < b <= self.nodes().len() * self.tape().len() && #[trigger] self.cursor(start, a)
                == #[trigger] self.cursor(start, b);
        let e = self.lemma_state_reduce(start, a, b, s);
        if e == 0 {
            assert(a == 0);
            assert(self.cursor(start, b) == self.cursor(start, s));
        } else {
            assert(self.cursor(start, e) == self.cursor(start, s));
        }
    }

    pub fn len(&self) -> (r: usize)
        ensures
            r == self.nodes().len(),
    {
        self.nodes.len()
    }

    pub fn node(&self, k: usize) -> (r: &Node)
        requires
            k < self.nodes().len(),
        ensures
            *r == self.nodes()[k as int],
    {
        &self.nodes[k]
    }

    pub fn current_node(&self) -> (r: usize)
        ensures
            r == self.current(),
    {
        self.current_node
    }

    /// Moves the walk one step as the tape says and returns the node it
    /// reaches.
    pub fn next(&mut self) -> (r: usize)
        requires
            old(self).wf(),
        ensures
            final(self).wf(),
            final(self).nodes() == old(self).nodes(),
            final(self).tape() == old(self).tape(),
            final(self).position() == (old(self).position() + 1) % (old(self).tape().len() as int),
            r == final(self).current(),
            r == old(self).nodes()[old(self).current()].child(old(self).tape()[old(self).position()]),
    {
        let d = self.instructions.next();
        let r = self.nodes[self.current_node].get(d);
        self.current_node = r;
        r
    }

    /// Steps of the walk from node `start`, with the tape at its start, until
    /// it first meets `goal`; `StepLimit` once it has taken as many steps as
    /// the walk has states without meeting it.
    pub fn steps_until(&self, start: usize, goal: &Goal) -> (r: Result<u64, NetworkError>)
        requires
            self.wf(),
            start < self.nodes().len(),
        ensures
            r matches Ok(s) ==> self.first_arrival(start as int, goal@, s as nat) && s <= self.step_cap(),
            r matches Err(e) ==> e == NetworkError::StepLimit && forall|s: nat|
                1 <= s <= self.step_cap() ==> !goal.met(
                    self.nodes()[#[trigger] self.cursor(start as int, s).0].name(),
                ),
            r is Err && self.nodes().len() * self.tape().len() <= u64::MAX ==> forall|s: nat|
                s >= 1 ==> !goal.met(self.nodes()[#[trigger] self.cursor(start as int, s).0].name()),
    {
        let n = self.nodes.len();
        let len = self.instructions.len();
        assert((n as int) * (len as int) <= u128::MAX) by (nonlinear_arith)
            requires
                n <= usize::MAX,
                len <= usize::MAX,
                usize::MAX <= u64::MAX,
        ;
        let wide = (n as u128) * (len as u128);
        let cap: u64 = if wide > u64::MAX as u128 {
            u64::MAX
        } else {
            wide as u64
        };
        let mut k = start;
        let mut t: usize = 0;
        let mut steps: u64 = 0;
        while steps < cap
            invariant
                self.wf(),
                n == self.nodes().len(),
                len == self.tape().len(),
                cap == self.step_cap(),
                steps <= cap,
                k < n,
                t < len,
                self.cursor(start as int, steps as nat) == (k as int, t as int),
                forall|e: nat| 1 <= e <= steps ==> !goal.met(self.nodes()[#[trigger] self.cursor(start as int, e).0].name()),
            decreases cap - steps,
        {
            let d = self.instructions.directions[t];
            k = self.nodes[k].get(d);
            t = if t + 1 < len {
                t + 1
            } else {
                0
            };
            steps = steps + 1;
            proof {
                let prev = self.cursor(start as int, (steps - 1) as nat);
                if prev.1 + 1 < len {
                    vstd::arithmetic::div_mod::lemma_small_mod((prev.1 + 1) as nat, len as nat);
                } else {
                    vstd::arithmetic::div_mod::lemma_mod_self_0(len as int);
                }
            }
            if goal.is_met(&self.nodes[k].name) {
                return Ok(steps);
            }
        }
        proof {
            if self.nodes().len() * self.tape().len() <= u64::MAX {
                assert forall|s: nat| s >= 1 implies !goal.met(
                    self.nodes()[#[trigger] self.cursor(start as int, s).0].name(),
                ) by {
                    if goal.met(self.nodes()[self.cursor(start as int, s).0].name()) {
                        self.lemma_arrives_early(start as int, goal@, s);
                    }
                }
            }
        }
        Err(NetworkError::StepLimit)
    }
}

/// The names of the definitions that meet `goal`, in line order.
pub fn names_where(defs: &Vec<Definition>, goal: &Goal) -> (r: Vec<Vec<u8>>)
    ensures
        forall|n: Seq<u8>|
            #[trigger] name_set(r@).contains(n) <==> goal.met(n) && exists|j: int|
                0 <= j < defs@.len() && (#[trigger] defs@[j]).name@ == n,
{
    let mut r: Vec<Vec<u8>> = Vec::new();
    let mut i: usize = 0;
    while i < defs.len()
        invariant
            i <= defs@.len(),
            forall|n: Seq<u8>|
                #[trigger] name_set(r@).contains(n) <==> goal.met(n) && exists|j: int|
                    0 <= j < i && (#[trigger] defs@[j]).name@ == n,
        decreases defs@.len() - i,
    {
        let ghost before = r@;
        if goal.is_met(&defs[i].name) {
            r.push(copy_bytes(&defs[i].name));
        }
        proof {
            assert forall|n: Seq<u8>|
                #[trigger] name_set(r@).contains(n) <==> goal.met(n) && exists|j: int|
                    0 <= j < i + 1 && (#[trigger] defs@[j]).name@ == n by {
                if name_set(r@).contains(n) {
                    let q = choose|q: int| 0 <= q < r@.len() && (#[trigger] r@[q])@ == n;
                    if q < before.len() {
                        assert(before[q] == r@[q]);
                        assert(name_set(before).contains(n));
                    }
                }
                if goal.met(n) && exists|j: int| 0 <= j < i + 1 && (#[trigger] defs@[j]).name@ == n {
                    let j = choose|j: int| 0 <= j < i + 1 && (#[trigger] defs@[j]).name@ == n;
                    if j < i {
                        assert(name_set(before).contains(n));
                        let q = choose|q: int| 0 <= q < before.len() && (#[trigger] before[q])@ == n;
                        assert(r@[q] == before[q]);
                    } else {
                        assert(r@[r@.len() - 1]@ == n);
                    }
                }
            }
        }
        i = i + 1;
    }
    r
}

/// The name `AAA`, where the single walk starts.
pub open spec fn first_name() -> Seq<u8> {
    seq!['A' as u8, 'A' as u8, 'A' as u8]
}

/// The name `ZZZ`, where the single walk ends.
pub open spec fn last_name() -> Seq<u8> {
    seq!['Z' as u8, 'Z' as u8, 'Z' as u8]
}

fn triple(c: u8) -> (r: Vec<u8>)
    ensures
        r@ == seq![c, c, c],
{
    let mut r: Vec<u8> = Vec::new();
    r.push(c);
    r.push(c);
    r.push(c);
    assert(r@ =~= seq![c, c, c]);
    r
}

/// The node definitions that text `b` holds.
pub open spec fn text_defs(b: Seq<u8>) -> Seq<(Seq<u8>, Seq<u8>, Seq<u8>)> {
    node_lines(lines(b).skip(1))
}

/// The defined names that meet `starts`.
pub open spec fn start_names(defs: Seq<(Seq<u8>, Seq<u8>, Seq<u8>)>, starts: Target) -> Set<
    Seq<u8>,
> {
    Set::new(|n: Seq<u8>| starts.met(n) && exists|j: int| 0 <= j < defs.len() && defs[j].0 == n)
}

/// Reading text `b` and building its graph from the names that meet
/// `starts` fails with `e`: the text is malformed, or no defined name is a
/// starting name, or a name that the walks need has no definition.
pub open spec fn build_failure(b: Seq<u8>, starts: Target, e: NetworkError) -> bool {
    let defs = text_defs(b);
    ||| network_error(b) == Some(e)
    ||| network_error(b) is None && e == NetworkError::NoOrigin && forall|j: int|
        0 <= j < defs.len() ==> !starts.met(#[trigger] defs[j].0)
    ||| network_error(b) is None && e == NetworkError::UndefinedNode && exists|n: Seq<u8>|
        required(defs, start_names(defs, starts), n) && #[trigger] successors(defs, n) is None
}

/// The text is read and the graph built from the nodes that `starts` picks.
pub open spec fn network_of(b: Seq<u8>, starts: Target, t: NetworkText, m: NodeMap) -> bool {
    &&& t.reads_from(b)
    &&& m.built_from(t.defs_view(), start_names(t.defs_view(), starts))
    &&& m.tape() == t.tape@
    &&& starts.met(m.nodes()[m.current()].name())
}

/// Steps from `AAA` to `ZZZ`.
pub fn solve_part1(input: &str) -> (r: Result<u64, NetworkError>)
    ensures
        network_error(input.spec_bytes()) is Some ==> r == Err::<u64, NetworkError>(
            network_error(input.spec_bytes())->Some_0,
        ),
        r matches Err(e) ==> build_failure(input.spec_bytes(), Target::Named(first_name()), e) || e
            == NetworkError::StepLimit,
        r matches Ok(s) ==> exists|t: NetworkText, m: NodeMap|
            #[trigger] network_of(input.spec_bytes(), Target::Named(first_name()), t, m)
                && m.first_arrival(m.current(), Target::Named(last_name()), s as nat),
        r == Err::<u64, NetworkError>(NetworkError::StepLimit) ==> exists|t: NetworkText, m: NodeMap|
            #[trigger] network_of(input.spec_bytes(), Target::Named(first_name()), t, m)
                && (m.nodes().len() * m.tape().len() <= u64::MAX ==> forall|s: nat|
                s >= 1 ==> !Target::Named(last_name()).met(
                    m.nodes()[#[trigger] m.cursor(m.current(), s).0].name(),
                )),
{
    let text = match NetworkText::parse(input) {
        Ok(t) => t,
        Err(e) => {
            return Err(e);
        },
    };
    let start = Goal::Named(triple('A' as u8));
    let origins = names_where(&text.defs, &start);
    proof {
        lemma_origin_names(&text, &origins, start@);
    }
    let map = match NodeMap::from(&text, &origins) {
        Ok(m) => m,
        Err(e) => {
            proof {
                lemma_build_failure(input.spec_bytes(), &text, &origins, start@, e);
            }
            return Err(e);
        },
    };
    proof {
        assert(origins@.len() > 0);
        assert(name_set(origins@).contains(origins@.last()@));
    }
    let goal = Goal::Named(triple('Z' as u8));
    let r = map.steps_until(map.current_node(), &goal);
    proof {
        assert(network_of(input.spec_bytes(), Target::Named(first_name()), text, map));
    }
    r
}

/// `starts` are the arena indices of the nodes whose names end with `A`, in
/// order, and `counts` the steps of the walk from each to its first node whose
/// name ends with `Z`.
pub open spec fn walk_counts(m: NodeMap, starts: Seq<int>, counts: Seq<u64>) -> bool {
    &&& starts.len() == counts.len()
    &&& forall|k: int|
        (0 <= k < m.nodes().len() && Target::EndsWith('A' as u8).met(m.nodes()[k].name()))
            <==> #[trigger] starts.contains(k)
    &&& forall|i: int|
        0 <= i < starts.len() ==> m.first_arrival(
            starts[i],
            Target::EndsWith('Z' as u8),
            #[trigger] counts[i] as nat,
        )
}

/// Steps until all walks from the nodes whose names end with `A` stand on
/// nodes whose names end with `Z`: the least common multiple of the steps
/// each walk takes to its first such node.
pub fn solve_part2(input: &str) -> (r: Result<u64, NetworkError>)
    ensures
        network_error(input.spec_bytes()) is Some ==> r == Err::<u64, NetworkError>(
            network_error(input.spec_bytes())->Some_0,
        ),
        r matches Err(e) ==> build_failure(input.spec_bytes(), Target::EndsWith('A' as u8), e) || e
            == NetworkError::StepLimit || e == NetworkError::Overflow,
        r matches Ok(v) ==> exists|t: NetworkText, m: NodeMap, starts: Seq<int>, counts: Seq<u64>|
            #[trigger] network_of(input.spec_bytes(), Target::EndsWith('A' as u8), t, m)
                && #[trigger] walk_counts(m, starts, counts) && is_lcm_of(counts, v as int),
        r == Err::<u64, NetworkError>(NetworkError::StepLimit) ==> exists|t: NetworkText, m: NodeMap, k: int|
            #[trigger] network_of(input.spec_bytes(), Target::EndsWith('A' as u8), t, m) && 0 <= k
                < m.nodes().len() && Target::EndsWith('A' as u8).met((#[trigger] m.nodes()[k]).name()) && (
            m.nodes().len() * m.tape().len() <= u64::MAX ==> forall|s: nat|
                s >= 1 ==> !Target::EndsWith('Z' as u8).met(
                    m.nodes()[#[trigger] m.cursor(k, s).0].name(),
                )),
        r == Err::<u64, NetworkError>(NetworkError::Overflow) ==> exists|
            t: NetworkText,
            m: NodeMap,
            starts: Seq<int>,
            counts: Seq<u64>,
        |
            #[trigger] network_of(input.spec_bytes(), Target::EndsWith('A' as u8), t, m)
                && #[trigger] walk_counts(m, starts, counts) && forall|c: int|
                0 < c <= u64::MAX ==> !#[trigger] common_multiple(counts, c),
{
    let text = match NetworkText::parse(input) {
        Ok(t) => t,
        Err(e) => {
            return Err(e);
        },
    };
    let start = Goal::EndsWith('A' as u8);
    let origins = names_where(&text.defs, &start);
    proof {
        lemma_origin_names(&text, &origins, start@);
    }
    let map = match NodeMap::from(&text, &origins) {
        Ok(m) => m,
        Err(e) => {
            proof {
                lemma_build_failure(input.spec_bytes(), &text, &origins, start@, e);
            }
            return Err(e);
        },
    };
    proof {
        assert(name_set(origins@).contains(origins@.last()@));
        assert(network_of(input.spec_bytes(), Target::EndsWith('A' as u8), text, map));
    }
    let goal = Goal::EndsWith('Z' as u8);
    let mut counts: Vec<u64> = Vec::new();
    let ghost mut starts: Seq<int> = Seq::empty();
    let mut k: usize = 0;
    while k < map.len()
        invariant
            network_error(input.spec_bytes()) is None,
            map.wf(),
            start@ == Target::EndsWith('A' as u8),
            goal@ == Target::EndsWith('Z' as u8),
            k <= map.nodes().len(),
            starts.len() == counts@.len(),
            forall|q: int|
                (0 <= q < k && Target::EndsWith('A' as u8).met(map.nodes()[q].name()))
                    <==> #[trigger] starts.contains(q),
            forall|i: int|
                0 <= i < starts.len() ==> map.first_arrival(
                    starts[i],
                    Target::EndsWith('Z' as u8),
                    #[trigger] counts@[i] as nat,
                ),
            forall|i: int| 0 <= i < counts@.len() ==> #[trigger] counts@[i] > 0,
            network_of(input.spec_bytes(), Target::EndsWith('A' as u8), text, map),
        decreases map.nodes().len() - k,
    {
        if start.is_met(map.node(k).name_bytes()) {
            assert(Target::EndsWith('A' as u8).met(map.nodes()[k as int].name()));
            let c = match map.steps_until(k, &goal) {
                Ok(c) => c,
                Err(e) => {
                    proof {
                        assert(network_of(input.spec_bytes(), Target::EndsWith('A' as u8), text, map));
                    }
                    return Err(e);
                },
            };
            let ghost before = starts;
            counts.push(c);
            proof {
                starts = starts.push(k as int);
                assert forall|q: int|
                    (0 <= q < k + 1 && Target::EndsWith('A' as u8).met(map.nodes()[q].name()))
                        <==> #[trigger] starts.contains(q) by {
                    if starts.contains(q) && q != k {
                        let i = choose|i: int| 0 <= i < starts.len() && starts[i] == q;
                        assert(before[i] == q);
                        assert(before.contains(q));
                    }
                    if 0 <= q < k && Target::EndsWith('A' as u8).met(map.nodes()[q].name()) {
                        assert(before.contains(q));
                        let i = choose|i: int| 0 <= i < before.len() && before[i] == q;
                        assert(starts[i] == q);
                    }
                    if q == k {
                        assert(starts[starts.len() - 1] == q);
                    }
                }
            }
        } else {
            proof {
                assert forall|q: int|
                    (0 <= q < k + 1 && Target::EndsWith('A' as u8).met(map.nodes()[q].name()))
                        <==> #[trigger] starts.contains(q) by {
                    if q == k && starts.contains(q) {
                        let i = choose|i: int| 0 <= i < starts.len() && starts[i] == q;
                    }
                }
            }
        }
        k = k + 1;
    }
    assert(walk_counts(map, starts, counts@));
    match vec_lcm(&counts) {
        Some(v) => Ok(v),
        None => Err(NetworkError::Overflow),
    }
}

proof fn lemma_build_failure(
    b: Seq<u8>,
    text: &NetworkText,
    origins: &Vec<Vec<u8>>,
    starts: Target,
    e: NetworkError,
)
    requires
        network_error(b) is None,
        text.reads_from(b),
        name_set(origins@) == start_names(text.defs_view(), starts),
        ({
            ||| text.tape@.len() == 0 && e == NetworkError::EmptyTape
            ||| text.tape@.len() > 0 && origins@.len() == 0 && e == NetworkError::NoOrigin
            ||| e == NetworkError::UndefinedNode && exists|n: Seq<u8>|
                required(text.defs_view(), name_set(origins@), n) && #[trigger] successors(
                    text.defs_view(),
                    n,
                ) is None
        }),
    ensures
        build_failure(b, starts, e),
{
    let defs = text_defs(b);
    assert(text.defs_view() == defs);
    assert(text.tape@.len() > 0);
    if e == NetworkError::NoOrigin && origins@.len() == 0 {
        assert forall|j: int| 0 <= j < defs.len() implies !starts.met(#[trigger] defs[j].0) by {
            if starts.met(defs[j].0) {
                assert(start_names(defs, starts).contains(defs[j].0));
                assert(name_set(origins@).contains(defs[j].0));
            }
        }
    }
}

proof fn lemma_origin_names(text: &NetworkText, origins: &Vec<Vec<u8>>, starts: Target)
    requires
        forall|n: Seq<u8>|
            #[trigger] name_set(origins@).contains(n) <==> starts.met(n) && exists|j: int|
                0 <= j < text.defs@.len() && (#[trigger] text.defs@[j]).name@ == n,
    ensures
        name_set(origins@) == start_names(text.defs_view(), starts),
{
    let target = Set::new(
        |n: Seq<u8>| starts.met(n) && exists|j: int| 0 <= j < text.defs_view().len() && text.defs_view()[j].0 == n,
    );
    assert forall|n: Seq<u8>| name_set(origins@).contains(n) <==> target.contains(n) by {
        if name_set(origins@).contains(n) {
            let j = choose|j: int| 0 <= j < text.defs@.len() && (#[trigger] text.defs@[j]).name@ == n;
            assert(text.defs_view()[j].0 == n);
        }
        if target.contains(n) {
            let j = choose|j: int| 0 <= j < text.defs_view().len() && text.defs_view()[j].0 == n;
            assert(text.defs@[j].name@ == n);
        }
    }
    assert(name_set(origins@) =~= target);
}

/// Building the graph twice from the same definitions and starting names
/// gives the same shape: the same names, each with the same two successor
/// names, cycles and self-references included.
#[verifier::spinoff_prover]
#[verifier::rlimit(50)]
pub proof fn lemma_build_same_shape(
    m1: &NodeMap,
    m2: &NodeMap,
    defs: Seq<(Seq<u8>, Seq<u8>, Seq<u8>)>,
    origins: Set<Seq<u8>>,
)
    requires
        m1.built_from(defs, origins),
        m2.built_from(defs, origins),
    ensures
        m1.shape() == m2.shape(),
{
    m1.lemma_names_closed(defs, origins);
    m2.lemma_names_closed(defs, origins);
    m1.lemma_names_required(defs, origins);
    m2.lemma_names_required(defs, origins);
    assert forall|n: Seq<u8>| m1.names().contains(n) implies m2.names().contains(n) by {
        assert(required(defs, origins, n));
    }
    assert forall|n: Seq<u8>| m2.names().contains(n) implies m1.names().contains(n) by {
        assert(required(defs, origins, n));
    }
    assert(m1.shape().dom() =~= m2.shape().dom());
    assert(m1.shape() =~= m2.shape());
}

fn copy_tape(t: &Vec<Direction>) -> (r: Vec<Direction>)
    ensures
        r@ == t@,
{
    let mut r: Vec<Direction> = Vec::new();
    let mut i: usize = 0;
    while i < t.len()
        invariant
            i <= t@.len(),
            r@ == t@.take(i as int),
        decreases t@.len() - i,
    {
        r.push(t[i]);
        i = i + 1;
        assert(r@ =~= t@.take(i as int));
    }
    assert(t@.take(t@.len() as int) =~= t@);
    r
}

// Least common multiples.

/// `m` is a multiple of every element of `s`.
pub open spec fn common_multiple(s: Seq<u64>, m: int) -> bool {
    forall|i: int| 0 <= i < s.len() ==> #[trigger] (m % (s[i] as int)) == 0
}

/// `r` is the least positive common multiple of the elements of `s`.
pub open spec fn is_lcm_of(s: Seq<u64>, r: int) -> bool {
    &&& r > 0
    &&& common_multiple(s, r)
    &&& forall|m: int| m > 0 && #[trigger] common_multiple(s, m) ==> r <= m
}

/// Relies on num::integer::lcm, which returns the least common multiple of
/// its two arguments, and zero when one of them is zero. Computed in `u128`,
/// where the product of two `u64` values fits, so that it cannot overflow.
#[verifier::external_body]
fn lcm_wide(a: u64, b: u64) -> (r: u128)
    ensures
        a == 0 || b == 0 ==> r == 0,
        a > 0 && b > 0 ==> is_lcm_of(seq![a, b], r as int),
{
    num::integer::lcm(a as u128, b as u128)
}

proof fn lemma_divides_remainder(e: int, m: int, c: int)
    requires
        e > 0,
        c > 0,
        m % e == 0,
        c % e == 0,
    ensures
        (m % c) % e == 0,
{
    vstd::arithmetic::div_mod::lemma_fundamental_div_mod(m, e);
    vstd::arithmetic::div_mod::lemma_fundamental_div_mod(c, e);
    vstd::arithmetic::div_mod::lemma_fundamental_div_mod(m, c);
    let q = m / c;
    let a1 = m / e;
    let a2 = c / e;
    assert(m % c == e * (a1 - q * a2)) by (nonlinear_arith)
        requires
            m == e * a1,
            c == e * a2,
            m == c * q + m % c,
    ;
    vstd::arithmetic::div_mod::lemma_mod_multiples_basic(a1 - q * a2, e);
    assert(e * (a1 - q * a2) == (a1 - q * a2) * e) by (nonlinear_arith);
}

proof fn lemma_divides_trans(e: int, c: int, m: int)
    requires
        e > 0,
        c > 0,
        c % e == 0,
        m % c == 0,
    ensures
        m % e == 0,
{
    vstd::arithmetic::div_mod::lemma_fundamental_div_mod(m, c);
    vstd::arithmetic::div_mod::lemma_fundamental_div_mod(c, e);
    let q = m / c;
    let p = c / e;
    assert(m == (p * q) * e) by (nonlinear_arith)
        requires
            m == c * q + m % c,
            m % c == 0,
            c == e * p + c % e,
            c % e == 0,
    ;
    vstd::arithmetic::div_mod::lemma_mod_multiples_basic(p * q, e);
}

/// Every positive common multiple of `s` is a multiple of its least one.
proof fn lemma_lcm_divides(s: Seq<u64>, r: int, m: int)
    requires
        forall|i: int| 0 <= i < s.len() ==> #[trigger] s[i] > 0,
        is_lcm_of(s, r),
        m > 0,
        common_multiple(s, m),
    ensures
        m % r == 0,
{
    let rem = m % r;
    assert forall|i: int| 0 <= i < s.len() implies #[trigger] (rem % (s[i] as int)) == 0 by {
        assert(m % (s[i] as int) == 0);
        assert(r % (s[i] as int) == 0);
        lemma_divides_remainder(s[i] as int, m, r);
    }
    if rem > 0 {
        assert(common_multiple(s, rem));
    }
}

/// The least common multiple of all the numbers, or `None` when it exceeds
/// `u64::MAX`.
pub fn vec_lcm(input: &Vec<u64>) -> (r: Option<u64>)
    requires
        forall|i: int| 0 <= i < input@.len() ==> #[trigger] input@[i] > 0,
    ensures
        match r {
            Some(v) => is_lcm_of(input@, v as int),
            None => forall|m: int| 0 < m <= u64::MAX ==> !#[trigger] common_multiple(input@, m),
        },
{
    let mut acc: u64 = 1;
    let mut i: usize = 0;
    while i < input.len()
        invariant
            i <= input@.len(),
            forall|k: int| 0 <= k < input@.len() ==> #[trigger] input@[k] > 0,
            is_lcm_of(input@.subrange(0, i as int), acc as int),
        decreases input@.len() - i,
    {
        let x = input[i];
        let ghost pre = input@.subrange(0, i as int);
        let ghost next = input@.subrange(0, i + 1);
        assert(next == pre.push(x));
        let wide = lcm_wide(acc, x);
        proof {
            assert forall|m: int| m > 0 && #[trigger] common_multiple(next, m) implies wide <= m by {
                assert forall|k: int| 0 <= k < pre.len() implies #[trigger] (m % (pre[k] as int))
                    == 0 by {
                    assert(next[k] == pre[k]);
                }
                assert(common_multiple(pre, m));
                lemma_lcm_divides(pre, acc as int, m);
                assert(m % (x as int) == 0) by {
                    assert(next[i as int] == x);
                }
                assert(common_multiple(seq![acc, x], m));
            }
        }
        if wide > u64::MAX as u128 {
            proof {
                assert forall|m: int| 0 < m <= u64::MAX implies !#[trigger] common_multiple(input@, m) by {
                    if common_multiple(input@, m) {
                        assert forall|k: int| 0 <= k < next.len() implies #[trigger] (m % (next[k] as int)) == 0 by {
                            assert(next[k] == input@[k]);
                        }
                        assert(common_multiple(next, m));
                        assert(wide <= m);
                    }
                }
            }
            return None;
        }
        proof {
            assert(seq![acc, x][0] == acc && seq![acc, x][1] == x);
            assert forall|k: int| 0 <= k < next.len() implies #[trigger] (wide as int % (next[k] as int)) == 0 by {
                if k < i {
                    assert(next[k] == pre[k]);
                    assert(acc as int % (pre[k] as int) == 0);
                    assert(wide as int % (acc as int) == 0);
                    lemma_divides_trans(pre[k] as int, acc as int, wide as int);
                } else {
                    assert(next[k] == x);
                    assert(wide as int % (seq![acc, x][1] as int) == 0);
                }
            }
        }
        acc = wide as u64;
        i = i + 1;
    }
    assert(input@.subrange(0, input@.len() as int) == input@);
    Some(acc)
}

/// The least common multiple does not depend on the order of the numbers:
/// two sequences that are permutations of each other have the same one.
pub proof fn lemma_lcm_order_free(s1: Seq<u64>, s2: Seq<u64>, r1: int, r2: int)
    requires
        s1.to_multiset() == s2.to_multiset(),
        is_lcm_of(s1, r1),
        is_lcm_of(s2, r2),
    ensures
        r1 == r2,
{
    assert forall|m: int| common_multiple(s1, m) implies common_multiple(s2, m) by {
        assert forall|i: int| 0 <= i < s2.len() implies #[trigger] (m % (s2[i] as int)) == 0 by {
            assert(s2.contains(s2[i]));
            assert(s2.to_multiset().count(s2[i]) > 0);
            assert(s1.contains(s2[i]));
            let j = choose|j: int| 0 <= j < s1.len() && s1[j] == s2[i];
            assert(m % (s1[j] as int) == 0);
        }
    }
    assert forall|m: int| common_multiple(s2, m) implies common_multiple(s1, m) by {
        assert forall|i: int| 0 <= i < s1.len() implies #[trigger] (m % (s1[i] as int)) == 0 by {
            assert(s1.contains(s1[i]));
            assert(s1.to_multiset().count(s1[i]) > 0);
            assert(s2.contains(s1[i]));
            let j = choose|j: int| 0 <= j < s2.len() && s2[j] == s1[i];
            assert(m % (s2[j] as int) == 0);
        }
    }
    assert(r1 <= r2);
    assert(r2 <= r1);
}

} // verus!
