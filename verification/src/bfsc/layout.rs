//! Tape layout of BFS bindings.
//!
//! Declarations take consecutive tape cells, in order. Cell numbers are wide
//! enough for every program that fits in memory.

use vstd::prelude::*;

use crate::bfsc::ast::ScalarType;
use crate::text::same_text;

verus! {

/// Storage strategy of an array.
#[derive(Debug, Clone, Copy, PartialEq, Eq, Structural)]
pub enum ArrayLayout {
    /// Consecutive elements.
    Linear,
    /// Chunks for the moving-pointer idiom.
    ///
    /// Each element takes four cells: the value, and three that a walk passes
    /// a counter, a survivor and a value through. Three cells stand in front
    /// of the elements of a chunk and two behind them.
    Walk {
        /// Elements of a chunk.
        chunk_size: u128,
        /// Number of chunks.
        num_chunks: u128,
    },
}

impl ArrayLayout {
    /// Number of cells of an array.
    pub open spec fn size(self, array_len: int, elem_width: int) -> int {
        match self {
            ArrayLayout::Linear => array_len * elem_width,
            ArrayLayout::Walk { chunk_size, num_chunks } => num_chunks * (4 * chunk_size + 5),
        }
    }
}

/// Where a binding lies.
#[derive(Debug, Clone, Copy, PartialEq, Eq)]
pub struct CellLayout {
    /// First cell.
    pub base: u128,
    /// Number of cells.
    pub width: u128,
    /// Type of an element.
    pub ty: ScalarType,
    /// Number of elements; none for a scalar.
    pub array_len: Option<u128>,
    /// Storage strategy.
    pub layout: ArrayLayout,
}

impl CellLayout {
    /// Number of elements, 1 for a scalar.
    pub open spec fn elements(self) -> int {
        match self.array_len {
            Some(n) => n as int,
            None => 1,
        }
    }

    /// Cells of one element.
    pub fn elem_width(&self) -> (n: u128)
        ensures
            n == self.ty.cells(),
    {
        self.ty.cell_width()
    }

    /// Number of elements, 1 for a scalar.
    pub fn array_len(&self) -> (n: u128)
        ensures
            n == self.elements(),
    {
        match self.array_len {
            Some(n) => n,
            None => 1,
        }
    }
}

/// A list of named bindings as mathematical values.
pub open spec fn bindings_view(vars: Seq<(String, CellLayout)>) -> Seq<(Seq<char>, CellLayout)> {
    Seq::new(vars.len(), |i: int| (vars[i].0@, vars[i].1))
}

/// Where a name stands in a list of bindings, from `from` on; the length where
/// it does not.
pub open spec fn index_of_name(
    vars: Seq<(Seq<char>, CellLayout)>,
    name: Seq<char>,
    from: int,
) -> int
    decreases vars.len() - from,
{
    if from < 0 || from >= vars.len() || vars[from].0 == name {
        from
    } else {
        index_of_name(vars, name, from + 1)
    }
}

/// The binding of a name.
pub open spec fn binding(
    vars: Seq<(Seq<char>, CellLayout)>,
    name: Seq<char>,
) -> Option<CellLayout> {
    let i = index_of_name(vars, name, 0);
    if i < vars.len() {
        Some(vars[i].1)
    } else {
        None
    }
}

/// The list with a name bound, in place of what it was bound to.
pub open spec fn bound(
    vars: Seq<(Seq<char>, CellLayout)>,
    name: Seq<char>,
    cells: CellLayout,
) -> Seq<(Seq<char>, CellLayout)> {
    let i = index_of_name(vars, name, 0);
    if i < vars.len() {
        vars.update(i, (name, cells))
    } else {
        vars.push((name, cells))
    }
}

/// A name is found inside the list or not at all.
pub proof fn lemma_index_of_name(vars: Seq<(Seq<char>, CellLayout)>, name: Seq<char>, from: int)
    requires
        0 <= from <= vars.len(),
    ensures
        from <= index_of_name(vars, name, from) <= vars.len(),
        index_of_name(vars, name, from) < vars.len() ==> vars[index_of_name(vars, name, from)].0
            == name,
        forall|i: int|
            from <= i < index_of_name(vars, name, from) ==> (#[trigger] vars[i]).0 != name,
    decreases vars.len() - from,
{
    if from < vars.len() && vars[from].0 != name {
        lemma_index_of_name(vars, name, from + 1);
    }
}

/// Where a name stands in a list of bindings; the length where it does not.
pub fn find_name(vars: &Vec<(String, CellLayout)>, name: &str) -> (i: usize)
    ensures
        i == index_of_name(bindings_view(vars@), name@, 0),
        i <= vars@.len(),
{
    let ghost view = bindings_view(vars@);
    let mut i: usize = 0;
    while i < vars.len()
        invariant
            i <= vars@.len(),
            view == bindings_view(vars@),
            index_of_name(view, name@, 0) == index_of_name(view, name@, i as int),
        decreases vars@.len() - i,
    {
        if same_text(vars[i].0.as_str(), name) {
            return i;
        }
        i += 1;
    }
    i
}

/// The binding of a name.
pub fn find_binding(vars: &Vec<(String, CellLayout)>, name: &str) -> (r: Option<CellLayout>)
    ensures
        r == binding(bindings_view(vars@), name@),
{
    let i = find_name(vars, name);
    if i < vars.len() {
        Some(vars[i].1)
    } else {
        None
    }
}

/// Bind a name, in place of what it was bound to.
pub fn bind(vars: &mut Vec<(String, CellLayout)>, name: String, cells: CellLayout)
    ensures
        bindings_view(final(vars)@) == bound(bindings_view(old(vars)@), name@, cells),
{
    let i = find_name(vars, name.as_str());
    let ghost before = bindings_view(vars@);
    let ghost text = name@;
    if i < vars.len() {
        vars.set(i, (name, cells));
    } else {
        vars.push((name, cells));
    }
    assert(bindings_view(vars@) =~= bound(before, text, cells));
}

/// A bound on the cells that one declaration takes.
pub const DECL_CELLS: u128 = 0x8_0000_0000;

/// No cell number is higher.
pub const CELL_LIMIT: u128 = 0x4000_0000_0000_0000_0000_0000_0000;

/// Where the bindings of a program lie.
#[derive(Debug)]
pub struct MemMap {
    /// Named bindings.
    pub vars: Vec<(String, CellLayout)>,
    /// First cell for temporary values.
    pub temp_base: u128,
}

/// Whether the cells of a binding lie below `limit` and hold its elements.
pub open spec fn cells_ok(l: CellLayout, limit: int) -> bool {
    &&& l.base + l.width <= limit
    &&& l.layout.size(l.elements(), l.ty.cells()) <= l.width
    &&& l.layout matches ArrayLayout::Walk { chunk_size, num_chunks } ==> chunk_size == 256
        && num_chunks >= 1 && l.ty == ScalarType::U8
}

/// Whether all bindings lie below `limit`.
pub open spec fn bindings_ok(vars: Seq<(Seq<char>, CellLayout)>, limit: int) -> bool {
    forall|i: int| 0 <= i < vars.len() ==> cells_ok((#[trigger] vars[i]).1, limit)
}

impl MemMap {
    /// The bindings.
    pub open spec fn bindings(self) -> Seq<(Seq<char>, CellLayout)> {
        bindings_view(self.vars@)
    }

    /// The bindings lie in front of the temporary cells, whose numbers are in
    /// range.
    pub open spec fn wf(self) -> bool {
        &&& bindings_ok(self.bindings(), self.temp_base as int)
        &&& self.temp_base <= DECL_CELLS * usize::MAX
    }

    /// The binding of a name.
    pub fn get(&self, name: &str) -> (r: Option<CellLayout>)
        ensures
            r == binding(self.bindings(), name@),
    {
        find_binding(&self.vars, name)
    }
}

/// Where a new scalar lies.
pub open spec fn scalar_cells(base: int, ty: ScalarType) -> CellLayout {
    CellLayout {
        base: base as u128,
        width: ty.cells() as u128,
        ty,
        array_len: None,
        layout: ArrayLayout::Linear,
    }
}

/// The storage strategy of a new array: chunks of 256 elements for byte arrays
/// of more than 256 elements.
pub open spec fn array_layout(ty: ScalarType, len: int) -> ArrayLayout {
    if ty == ScalarType::U8 && len > 256 {
        ArrayLayout::Walk { chunk_size: 256, num_chunks: ((len + 255) / 256) as u128 }
    } else {
        ArrayLayout::Linear
    }
}

/// Where a new array lies.
pub open spec fn array_cells(base: int, ty: ScalarType, len: int) -> CellLayout {
    CellLayout {
        base: base as u128,
        width: array_layout(ty, len).size(len, ty.cells()) as u128,
        ty,
        array_len: Some(len as u128),
        layout: array_layout(ty, len),
    }
}

/// Gives declarations consecutive cells.
pub struct MemMapBuilder {
    vars: Vec<(String, CellLayout)>,
    next_cell: u128,
}

impl MemMapBuilder {
    /// The bindings so far.
    pub closed spec fn bindings(self) -> Seq<(Seq<char>, CellLayout)> {
        bindings_view(self.vars@)
    }

    /// The first free cell.
    pub closed spec fn next(self) -> int {
        self.next_cell as int
    }

    /// The bindings lie in front of the first free cell.
    pub closed spec fn wf(self) -> bool {
        bindings_ok(bindings_view(self.vars@), self.next_cell as int)
    }

    /// Nothing is declared.
    pub fn new() -> (b: Self)
        ensures
            b.wf(),
            b.bindings() == Seq::<(Seq<char>, CellLayout)>::empty(),
            b.next() == 0,
    {
        let b = MemMapBuilder { vars: Vec::new(), next_cell: 0 };
        assert(b.bindings() =~= Seq::<(Seq<char>, CellLayout)>::empty());
        b
    }

    fn declare(&mut self, name: String, cells: CellLayout)
        requires
            old(self).wf(),
            cells_ok(cells, old(self).next() + cells.width),
            cells.base == old(self).next(),
            old(self).next() + cells.width <= u128::MAX,
        ensures
            final(self).wf(),
            final(self).bindings() == bound(old(self).bindings(), name@, cells),
            final(self).next() == old(self).next() + cells.width,
    {
        let ghost before = self.bindings();
        let ghost text = name@;
        bind(&mut self.vars, name, cells);
        self.next_cell = self.next_cell + cells.width;
        assert(bindings_ok(self.bindings(), self.next_cell as int)) by {
            lemma_index_of_name(before, text, 0);
            assert forall|i: int| 0 <= i < self.bindings().len() implies cells_ok(
                (#[trigger] self.bindings()[i]).1,
                self.next_cell as int,
            ) by {
                if self.bindings()[i] != (text, cells) {
                    assert(self.bindings()[i] == before[i]);
                    assert(cells_ok(before[i].1, self.next_cell - cells.width));
                }
            }
        }
    }

    /// Declare a scalar. A name that was declared before now means this one.
    pub fn alloc_scalar(&mut self, name: String, ty: ScalarType)
        requires
            old(self).wf(),
            old(self).next() + DECL_CELLS <= u128::MAX,
        ensures
            final(self).wf(),
            final(self).bindings() == bound(
                old(self).bindings(),
                name@,
                scalar_cells(old(self).next(), ty),
            ),
            final(self).next() == old(self).next() + ty.cells(),
    {
        let width = ty.cell_width();
        let cells = CellLayout {
            base: self.next_cell,
            width,
            ty,
            array_len: None,
            layout: ArrayLayout::Linear,
        };
        self.declare(name, cells);
    }

    /// Declare an array. A name that was declared before now means this one.
    pub fn alloc_array(&mut self, name: String, ty: ScalarType, len: u32)
        requires
            old(self).wf(),
            old(self).next() + DECL_CELLS <= u128::MAX,
        ensures
            final(self).wf(),
            final(self).bindings() == bound(
                old(self).bindings(),
                name@,
                array_cells(old(self).next(), ty, len as int),
            ),
            final(self).next() == old(self).next() + array_layout(ty, len as int).size(
                len as int,
                ty.cells(),
            ),
    {
        let n = len as u128;
        let ew = ty.cell_width();
        let (layout, width) = if ty == ScalarType::U8 && len > 256 {
            let num_chunks = (n + 255) / 256;
            assert(num_chunks * 1029 == num_chunks * (4 * 256 + 5));
            (ArrayLayout::Walk { chunk_size: 256, num_chunks }, num_chunks * 1029)
        } else {
            assert(0 <= n * ew <= n * 4) by (nonlinear_arith)
                requires
                    1 <= ew <= 4,
            ;
            (ArrayLayout::Linear, n * ew)
        };
        let cells = CellLayout { base: self.next_cell, width, ty, array_len: Some(n), layout };
        assert(cells == array_cells(self.next(), ty, len as int));
        self.declare(name, cells);
    }

    /// The finished layout; temporary cells start at the first free one.
    pub fn finalize(self) -> (m: MemMap)
        requires
            self.wf(),
            self.next() <= DECL_CELLS * usize::MAX,
        ensures
            m.wf(),
            m.bindings() == self.bindings(),
            m.temp_base == self.next(),
    {
        MemMap { temp_base: self.next_cell, vars: self.vars }
    }
}

/// Bindings share no cell.
pub open spec fn disjoint(vars: Seq<(Seq<char>, CellLayout)>) -> bool {
    forall|i: int, j: int|
        0 <= i < vars.len() && 0 <= j < vars.len() && i != j ==> (#[trigger] vars[i]).1.base
            + vars[i].1.width <= (#[trigger] vars[j]).1.base || vars[j].1.base + vars[j].1.width
            <= vars[i].1.base
}

/// A declaration behind others that share no cell and end in front of it shares
/// none with them.
pub proof fn law_declarations_are_disjoint(
    vars: Seq<(Seq<char>, CellLayout)>,
    next: int,
    name: Seq<char>,
    cells: CellLayout,
)
    requires
        disjoint(vars),
        bindings_ok(vars, next),
        cells.base == next,
    ensures
        disjoint(bound(vars, name, cells)),
{
    let all = bound(vars, name, cells);
    lemma_index_of_name(vars, name, 0);
    let at = index_of_name(vars, name, 0);
    assert forall|i: int, j: int|
        0 <= i < all.len() && 0 <= j < all.len() && i != j implies (#[trigger] all[i]).1.base
        + all[i].1.width <= (#[trigger] all[j]).1.base || all[j].1.base + all[j].1.width
        <= all[i].1.base by {
        if i != at {
            assert(all[i] == vars[i]);
            assert(cells_ok(vars[i].1, next));
        }
        if j != at {
            assert(all[j] == vars[j]);
            assert(cells_ok(vars[j].1, next));
        }
    }
}

/// What a program declares: a scalar, or an array of a length.
pub struct Declared {
    /// Its name.
    pub name: Seq<char>,
    /// Type of an element.
    pub ty: ScalarType,
    /// Number of elements; none for a scalar.
    pub len: Option<u32>,
}

impl Declared {
    /// Its cells, from `base` on.
    pub open spec fn cells(self, base: int) -> CellLayout {
        match self.len {
            Some(n) => array_cells(base, self.ty, n as int),
            None => scalar_cells(base, self.ty),
        }
    }

    /// How many cells it takes.
    pub open spec fn span(self) -> int {
        match self.len {
            Some(n) => array_layout(self.ty, n as int).size(n as int, self.ty.cells()),
            None => self.ty.cells(),
        }
    }
}

/// The bindings and the first free cell after declarations in a row, each of
/// which does what [`MemMapBuilder::alloc_scalar`] or
/// [`MemMapBuilder::alloc_array`] does.
pub open spec fn declared(decls: Seq<Declared>) -> (Seq<(Seq<char>, CellLayout)>, int)
    decreases decls.len(),
{
    if decls.len() == 0 {
        (Seq::empty(), 0)
    } else {
        let (vars, next) = declared(decls.drop_last());
        (
            bound(vars, decls.last().name, decls.last().cells(next)),
            next + decls.last().span(),
        )
    }
}

/// A declaration takes at most [`DECL_CELLS`] cells.
pub proof fn lemma_span(d: Declared)
    ensures
        0 <= d.span() <= DECL_CELLS,
{
    match d.len {
        Some(n) => {
            let w = d.ty.cells();
            assert(0 <= n * w <= 4 * n) by (nonlinear_arith)
                requires
                    1 <= w <= 4,
                    0 <= n,
            ;
            let k = (n + 255) / 256;
            assert(k * (4 * 256 + 5) <= 0x8_0000_0000) by (nonlinear_arith)
                requires
                    0 <= k <= 0x100_0001,
            ;
        },
        None => {},
    }
}

/// The cells that the first `n` declarations take.
pub open spec fn cells_before(decls: Seq<Declared>, n: int) -> int
    decreases n,
{
    if n <= 0 {
        0
    } else {
        cells_before(decls, n - 1) + decls[n - 1].span()
    }
}

/// Whether no declaration behind `i` has its name.
pub open spec fn last_of_name(decls: Seq<Declared>, i: int) -> bool {
    forall|j: int| i < j < decls.len() ==> (#[trigger] decls[j]).name != decls[i].name
}

/// Cells in front of a declaration are those in front of it in any longer list.
proof fn lemma_cells_before(decls: Seq<Declared>, n: int)
    requires
        0 <= n < decls.len(),
    ensures
        cells_before(decls.drop_last(), n) == cells_before(decls, n),
    decreases n,
{
    if n > 0 {
        lemma_cells_before(decls, n - 1);
    }
}

/// Binding a name binds it and leaves the others as they were.
pub proof fn lemma_bound(
    vars: Seq<(Seq<char>, CellLayout)>,
    name: Seq<char>,
    cells: CellLayout,
    other: Seq<char>,
)
    ensures
        binding(bound(vars, name, cells), name) == Some(cells),
        other != name ==> binding(bound(vars, name, cells), other) == binding(vars, other),
{
    let all = bound(vars, name, cells);
    lemma_index_of_name(vars, name, 0);
    lemma_index_of_name(all, name, 0);
    lemma_index_of_name(vars, other, 0);
    lemma_index_of_name(all, other, 0);
    let at = index_of_name(vars, name, 0);
    let now = index_of_name(all, name, 0);
    assert(all[at].0 == name);
    assert(now <= at);
    assert(now == at) by {
        if now < at {
            assert(all[now] == vars[now]);
        }
    }
    if other != name {
        let i = index_of_name(vars, other, 0);
        let j = index_of_name(all, other, 0);
        if j < i && j < vars.len() {
            if j != at {
                assert(all[j] == vars[j]);
            }
        }
        if i < j && i < vars.len() {
            assert(all[i] == vars[i]);
        }
    }
}

/// Declarations end where the cells in front of the next one do.
proof fn lemma_declared_end(decls: Seq<Declared>)
    requires
        decls.len() <= usize::MAX,
    ensures
        declared(decls).1 == cells_before(decls, decls.len() as int),
        0 <= declared(decls).1 <= DECL_CELLS * decls.len() <= u128::MAX,
    decreases decls.len(),
{
    let n = decls.len() as int;
    assert(DECL_CELLS * n <= u128::MAX) by (nonlinear_arith)
        requires
            0 <= n <= usize::MAX,
            DECL_CELLS == 0x8_0000_0000,
    ;
    if n > 0 {
        let front = decls.drop_last();
        lemma_declared_end(front);
        lemma_span(decls.last());
        lemma_cells_before(decls, n - 1);
        let at = declared(front).1;
        let span = decls.last().span();
        assert(0 <= at + span <= DECL_CELLS * n) by (nonlinear_arith)
            requires
                0 <= at <= DECL_CELLS * (n - 1),
                0 <= span <= DECL_CELLS,
        ;
    }
}

/// The last declaration of a name binds it.
proof fn lemma_last_binds(decls: Seq<Declared>, i: int)
    requires
        decls.len() <= usize::MAX,
        0 <= i < decls.len(),
        last_of_name(decls, i),
    ensures
        binding(declared(decls).0, decls[i].name) == Some(decls[i].cells(cells_before(decls, i))),
    decreases decls.len(),
{
    let n = decls.len() as int;
    let front = decls.drop_last();
    let (before, at) = declared(front);
    let d = decls.last();
    lemma_bound(before, d.name, d.cells(at), decls[i].name);
    lemma_declared_end(front);
    lemma_cells_before(decls, i);
    if i < n - 1 {
        assert(decls[n - 1].name != decls[i].name);
        assert(last_of_name(front, i)) by {
            assert forall|j: int| i < j < front.len() implies (#[trigger] front[j]).name
                != front[i].name by {
                assert(front[j] == decls[j]);
            }
        }
        lemma_last_binds(front, i);
    }
}

/// A name that no declaration has is not bound.
proof fn lemma_undeclared(decls: Seq<Declared>, name: Seq<char>)
    requires
        forall|i: int| 0 <= i < decls.len() ==> (#[trigger] decls[i]).name != name,
    ensures
        binding(declared(decls).0, name) is None,
    decreases decls.len(),
{
    if decls.len() == 0 {
        lemma_index_of_name(declared(decls).0, name, 0);
    } else {
        let front = decls.drop_last();
        let (before, at) = declared(front);
        let d = decls.last();
        assert(decls[decls.len() - 1] == d);
        lemma_bound(before, d.name, d.cells(at), name);
        assert forall|i: int| 0 <= i < front.len() implies (#[trigger] front[i]).name != name by {
            assert(front[i] == decls[i]);
        }
        lemma_undeclared(front, name);
    }
}

/// Declarations take consecutive cells: each starts where the one in front of it
/// ends, the first at cell 0, and the first free cell is where the last one ends.
/// A name is bound to the cells of the last declaration of it.
pub proof fn law_declarations_follow_each_other(decls: Seq<Declared>, i: int)
    requires
        decls.len() <= usize::MAX,
        0 <= i < decls.len(),
    ensures
        declared(decls).1 == cells_before(decls, decls.len() as int),
        cells_before(decls, 0) == 0,
        ({
            let l = decls[i].cells(cells_before(decls, i));
            &&& last_of_name(decls, i) ==> binding(declared(decls).0, decls[i].name) == Some(l)
            &&& l.base == cells_before(decls, i)
            &&& l.width == decls[i].span()
            &&& l.base + l.width == cells_before(decls, i + 1)
        }),
{
    lemma_declared_end(decls);
    lemma_declared_end(decls.take(i));
    lemma_cells_front(decls, i, i);
    lemma_span(decls[i]);
    if last_of_name(decls, i) {
        lemma_last_binds(decls, i);
    }
    let k = i as int;
    assert(DECL_CELLS * k + DECL_CELLS <= u128::MAX) by (nonlinear_arith)
        requires
            0 <= k <= usize::MAX,
            DECL_CELLS == 0x8_0000_0000,
    ;
}

/// Cells in front of a declaration do not depend on what is behind it.
proof fn lemma_cells_front(decls: Seq<Declared>, i: int, n: int)
    requires
        0 <= n <= i <= decls.len(),
    ensures
        cells_before(decls.take(i), n) == cells_before(decls, n),
    decreases n,
{
    if n > 0 {
        lemma_cells_front(decls, i, n - 1);
    }
}

/// The declared names are bound, and no others.
pub proof fn law_declared_names_are_bound(decls: Seq<Declared>, name: Seq<char>)
    requires
        decls.len() <= usize::MAX,
    ensures
        binding(declared(decls).0, name) is Some <==> exists|i: int|
            0 <= i < decls.len() && (#[trigger] decls[i]).name == name,
{
    if exists|i: int| 0 <= i < decls.len() && (#[trigger] decls[i]).name == name {
        let i = choose|i: int| 0 <= i < decls.len() && (#[trigger] decls[i]).name == name;
        let k = lemma_has_last(decls, i);
        lemma_last_binds(decls, k);
    } else {
        lemma_undeclared(decls, name);
    }
}

/// A declared name has a last declaration.
proof fn lemma_has_last(decls: Seq<Declared>, i: int) -> (k: int)
    requires
        0 <= i < decls.len(),
    ensures
        i <= k < decls.len(),
        decls[k].name == decls[i].name,
        last_of_name(decls, k),
    decreases decls.len() - i,
{
    if last_of_name(decls, i) {
        i
    } else {
        let j = choose|j: int| i < j < decls.len() && (#[trigger] decls[j]).name == decls[i].name;
        lemma_has_last(decls, j)
    }
}

} // verus!
