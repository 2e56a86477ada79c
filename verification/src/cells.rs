//! One field of all records as a flat list of typed cells.
use crate::json::{same_tree, trees, Json, Tree};
use crate::op::{doubles_pass, strings_pass, value_passes, Op};
use crate::query::{below, gather, lemma_gather_none, row_passes, Predicate, PredicateView};
use crate::text::texts;
use vstd::hash_map::StringHashMap;
use vstd::prelude::*;

verus! {

/// The value of a field in one record.
#[derive(Clone, Copy, Debug)]
pub enum Cell {
    /// The record has no such field.
    Missing,
    /// A number that is a finite double, by its bits.
    Num(u64),
    /// A string, by its number in the table of strings.
    Sym(usize),
    /// Anything else.
    Other,
}

/// The cell stands for the value, where `names` is the table of strings.
pub open spec fn cell_fits(cell: Cell, names: Seq<Seq<char>>, value: Option<Tree>) -> bool {
    match cell {
        Cell::Missing => value is None,
        Cell::Num(bits) => value is Some && value->0.double() == Some(bits),
        Cell::Sym(s) => s < names.len() && value == Some(Tree::Text(names[s as int])),
        Cell::Other => value is Some && value->0.double() is None && !(value->0 is Text),
    }
}

/// The cells stand for the values of the field in the records, one each.
pub open spec fn cells_fit(
    cells: Seq<Cell>,
    names: Seq<Seq<char>>,
    rows: Seq<Tree>,
    field: Seq<char>,
) -> bool {
    &&& cells.len() == rows.len()
    &&& forall|i: int|
        0 <= i < cells.len() ==> cell_fits(#[trigger] cells[i], names, rows[i].get(field))
}

/// `syms` gives for each string in the table, and for no other, its number.
pub open spec fn table_fits(names: Seq<Seq<char>>, syms: Map<Seq<char>, usize>) -> bool {
    &&& forall|s: int|
        0 <= s < names.len() ==> syms.contains_key(#[trigger] names[s]) && syms[names[s]] == s
    &&& forall|t: Seq<char>| #[trigger]
        syms.contains_key(t) ==> syms[t] < names.len() && names[syms[t] as int] == t
}

/// One field of all records.
pub struct Column {
    field: String,
    cells: Vec<Cell>,
    interner: Vec<String>,
    syms: StringHashMap<usize>,
}

proof fn lemma_cells_grow(
    cells: Seq<Cell>,
    names: Seq<Seq<char>>,
    name: Seq<char>,
    rows: Seq<Tree>,
    field: Seq<char>,
)
    requires
        cells_fit(cells, names, rows, field),
    ensures
        cells_fit(cells, names.push(name), rows, field),
{
    assert forall|i: int| 0 <= i < cells.len() implies cell_fits(
        #[trigger] cells[i],
        names.push(name),
        rows[i].get(field),
    ) by {
        assert(cell_fits(cells[i], names, rows[i].get(field)));
        if let Cell::Sym(s) = cells[i] {
            assert(names.push(name)[s as int] == names[s as int]);
        }
    }
}

/// The number of a string in the table, where it is put if it is not there.
fn intern(names: &mut Vec<String>, syms: &mut StringHashMap<usize>, s: &str) -> (sym: usize)
    requires
        table_fits(texts(old(names)@), old(syms)@),
    ensures
        table_fits(texts(final(names)@), final(syms)@),
        texts(final(names)@) == texts(old(names)@) || texts(final(names)@) == texts(
            old(names)@,
        ).push(s@),
        sym < final(names)@.len(),
        final(names)@[sym as int]@ == s@,
{
    if let Some(sym) = syms.get(s) {
        let ghost t = texts(names@);
        assert(t[*sym as int] == s@);
        return *sym;
    }
    let sym: usize = names.len();
    let ghost before = texts(names@);
    let ghost known = syms@;
    names.push(s.to_owned());
    syms.insert(s.to_owned(), sym);
    let ghost now = texts(names@);
    proof {
        assert(now =~= before.push(s@));
        assert forall|k: int| 0 <= k < now.len() implies syms@.contains_key(#[trigger] now[k])
            && syms@[now[k]] == k by {
            if k < before.len() {
                assert(now[k] == before[k]);
                assert(known.contains_key(before[k]));
            }
        }
        assert forall|t: Seq<char>| #[trigger] syms@.contains_key(t) implies syms@[t] < now.len()
            && now[syms@[t] as int] == t by {
            if t != s@ {
                assert(known.contains_key(t));
                assert(now[known[t] as int] == before[known[t] as int]);
            }
        }
    }
    sym
}

impl Column {
    /// The name of the field.
    pub closed spec fn name(&self) -> Seq<char> {
        self.field@
    }

    /// The column stands for its field in the records.
    pub closed spec fn fits(&self, rows: Seq<Tree>) -> bool {
        &&& cells_fit(self.cells@, texts(self.interner@), rows, self.field@)
        &&& table_fits(texts(self.interner@), self.syms@)
    }

    /// The name of the field.
    pub fn field(&self) -> (s: &str)
        ensures
            s@ == self.name(),
    {
        self.field.as_str()
    }

    /// The column of a field.
    pub fn build(rows: &[Json], field: &str) -> (out: Column)
        ensures
            out.name() == field@,
            out.fits(trees(rows@)),
    {
        let ghost ts = trees(rows@);
        let mut cells: Vec<Cell> = Vec::new();
        let mut interner: Vec<String> = Vec::new();
        let mut syms: StringHashMap<usize> = StringHashMap::new();
        let mut i: usize = 0;
        while i < rows.len()
            invariant
                i <= rows@.len(),
                ts == trees(rows@),
                cells_fit(cells@, texts(interner@), ts.take(i as int), field@),
                table_fits(texts(interner@), syms@),
            decreases rows@.len() - i,
        {
            let ghost had = cells@;
            let ghost names = texts(interner@);
            let ghost done = ts.take(i as int);
            let ghost next = ts.take(i as int + 1);
            assert(next =~= done.push(rows@[i as int]@));
            let cell = match rows[i].get(field) {
                None => Cell::Missing,
                Some(value) => match value.double() {
                    Some(bits) => Cell::Num(bits),
                    None => match value.as_str() {
                        Some(s) => {
                            let sym = intern(&mut interner, &mut syms, s);
                            proof {
                                lemma_cells_grow(had, names, s@, done, field@);
                                assert(texts(interner@)[sym as int] == s@);
                            }
                            Cell::Sym(sym)
                        },
                        None => Cell::Other,
                    },
                },
            };
            assert(cell_fits(cell, texts(interner@), next[i as int].get(field@)));
            cells.push(cell);
            assert forall|k: int| 0 <= k < cells@.len() implies cell_fits(
                #[trigger] cells@[k],
                texts(interner@),
                next[k].get(field@),
            ) by {
                if k < i {
                    assert(cells@[k] == had[k]);
                    assert(next[k] == done[k]);
                }
            }
            i += 1;
        }
        assert(ts.take(i as int) =~= ts);
        Column { field: field.to_owned(), cells, interner, syms }
    }

    /// Whether the comparison holds of the record.
    fn cell_passes(&self, row: &Json, i: usize, p: &Predicate, target_sym: Option<usize>) -> (r:
        bool)
        requires
            i < self.cells@.len(),
            p.field@ == self.field@,
            cell_fits(self.cells@[i as int], texts(self.interner@), row@.get(p.field@)),
            table_fits(texts(self.interner@), self.syms@),
            p.value@ is Text ==> match target_sym {
                Some(s) => s < self.interner@.len() && self.interner@[s as int]@
                    == p.value@->Text_0,
                None => !self.syms@.contains_key(p.value@->Text_0),
            },
        ensures
            r == row_passes(row@, p@),
    {
        let ghost names = texts(self.interner@);
        let ghost value = row@.get(p.field@);
        match self.cells[i] {
            Cell::Missing => false,
            Cell::Num(bits) => match p.value.double() {
                Some(target) => doubles_pass(bits, p.op, target),
                None => match p.value.as_str() {
                    Some(_) => {
                        assert(!same_tree(value->0, p.value@));
                        match p.op {
                            Op::Ne => true,
                            _ => false,
                        }
                    },
                    None => Self::raw_passes(row, p),
                },
            },
            Cell::Sym(s) => match p.value.double() {
                Some(_) => {
                    assert(!same_tree(value->0, p.value@));
                    match p.op {
                        Op::Ne => true,
                        _ => false,
                    }
                },
                None => match p.value.as_str() {
                    Some(target) => {
                        assert(names[s as int] == self.interner@[s as int]@);
                        let same = match target_sym {
                            Some(t) => {
                                assert(names[t as int] == self.interner@[t as int]@);
                                assert(self.syms@[names[s as int]] == s);
                                assert(self.syms@[names[t as int]] == t);
                                s == t
                            },
                            None => {
                                assert(self.syms@.contains_key(names[s as int]));
                                false
                            },
                        };
                        assert(same == (names[s as int] == p.value@->Text_0));
                        match p.op {
                            Op::Eq => same,
                            Op::Ne => !same,
                            _ => strings_pass(self.interner[s].as_str(), p.op, target),
                        }
                    },
                    None => Self::raw_passes(row, p),
                },
            },
            Cell::Other => Self::raw_passes(row, p),
        }
    }

    /// Whether the comparison holds of the record, by the record itself.
    pub fn raw_passes(row: &Json, p: &Predicate) -> (r: bool)
        ensures
            r == row_passes(row@, p@),
    {
        match row.get(p.field.as_str()) {
            Some(value) => value_passes(value, p.op, &p.value),
            None => false,
        }
    }

    /// Takes out of the mask the records of which the comparison does not hold.
    pub fn restrict(&self, rows: &[Json], p: &Predicate, mask: &mut Vec<bool>)
        requires
            self.fits(trees(rows@)),
            self.name() == p.field@,
            old(mask)@.len() == rows@.len(),
        ensures
            final(mask)@ == restricted(trees(rows@), p@, old(mask)@),
    {
        let ghost ts = trees(rows@);
        let ghost before = mask@;
        let target_sym: Option<usize> = match p.value.as_str() {
            Some(target) => match self.syms.get(target) {
                Some(s) => {
                    assert(texts(self.interner@)[*s as int] == p.value@->Text_0);
                    Some(*s)
                },
                None => None,
            },
            None => None,
        };
        let mut i: usize = 0;
        while i < rows.len()
            invariant
                i <= rows@.len(),
                ts == trees(rows@),
                self.fits(ts),
                self.name() == p.field@,
                mask@.len() == rows@.len(),
                before.len() == rows@.len(),
                p.value@ is Text ==> match target_sym {
                    Some(s) => s < self.interner@.len() && self.interner@[s as int]@
                        == p.value@->Text_0,
                    None => !self.syms@.contains_key(p.value@->Text_0),
                },
                forall|k: int|
                    0 <= k < i ==> #[trigger] mask@[k] == (before[k] && row_passes(ts[k], p@)),
                forall|k: int| i <= k < rows@.len() ==> #[trigger] mask@[k] == before[k],
            decreases rows@.len() - i,
        {
            assert(ts[i as int] == rows@[i as int]@);
            if mask[i] {
                let r = self.cell_passes(&rows[i], i, p, target_sym);
                mask.set(i, r);
            }
            i += 1;
        }
        assert(mask@ =~= restricted(ts, p@, before));
    }

    /// The doubles of the field over the records `matched`; nothing, if a value
    /// is no finite double.
    pub fn gather_cells(&self, rows: &[Json], matched: &[usize]) -> (out: Option<Vec<u64>>)
        requires
            self.fits(trees(rows@)),
            below(matched@, rows@.len() as int),
        ensures
            match out {
                Some(v) => gather(trees(rows@), matched@, self.name()) == Some(v@),
                None => gather(trees(rows@), matched@, self.name()) is None,
            },
    {
        let ghost ts = trees(rows@);
        let mut vals: Vec<u64> = Vec::new();
        let mut k: usize = 0;
        while k < matched.len()
            invariant
                k <= matched@.len(),
                ts == trees(rows@),
                self.fits(ts),
                below(matched@, ts.len() as int),
                gather(ts, matched@.take(k as int), self.field@) == Some(vals@),
            decreases matched@.len() - k,
        {
            let ghost next = matched@.take(k as int + 1);
            assert(next.drop_last() =~= matched@.take(k as int));
            let i: usize = matched[k];
            assert(cell_fits(
                self.cells@[i as int],
                texts(self.interner@),
                ts[i as int].get(self.field@),
            ));
            match self.cells[i] {
                Cell::Num(bits) => {
                    vals.push(bits);
                },
                Cell::Missing => {},
                _ => {
                    assert(ts[i as int].get(self.field@)->0.double() is None);
                    assert(gather(ts, next, self.field@) is None);
                    proof {
                        lemma_gather_none(ts, matched@, self.field@, k as int + 1);
                    }
                    return None;
                },
            }
            k += 1;
        }
        assert(matched@.take(k as int) =~= matched@);
        Some(vals)
    }
}

/// The mask without the records of which the comparison does not hold.
pub open spec fn restricted(rows: Seq<Tree>, p: PredicateView, mask: Seq<bool>) -> Seq<bool> {
    Seq::new(mask.len(), |i: int| mask[i] && row_passes(rows[i], p))
}

} // verus!
