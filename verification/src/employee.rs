//! An employee directory: the order in which employees were added, and a
//! name-to-department mapping.

use vstd::prelude::*;

verus! {

/// The mathematical image of the directory: the names in insertion order,
/// and the name-to-department association.
#[verifier::ext_equal]
pub struct EmployeeModel {
    pub names: Seq<Seq<char>>,
    pub departments: Seq<(Seq<char>, Seq<char>)>,
}

/// Map `k` to `v`: overwrite the first entry with key `k`, or append a new
/// entry when no entry has it.
pub open spec fn assoc_update(
    m: Seq<(Seq<char>, Seq<char>)>,
    k: Seq<char>,
    v: Seq<char>,
) -> Seq<(Seq<char>, Seq<char>)>
    decreases m.len(),
{
    if m.len() == 0 {
        seq![(k, v)]
    } else if m[0].0 == k {
        seq![(k, v)] + m.drop_first()
    } else {
        seq![m[0]] + assoc_update(m.drop_first(), k, v)
    }
}

/// Overwriting a key found first at index `i` is the point-wise update.
proof fn lemma_assoc_update_found(
    m: Seq<(Seq<char>, Seq<char>)>,
    k: Seq<char>,
    v: Seq<char>,
    i: int,
)
    requires
        0 <= i < m.len(),
        m[i].0 == k,
        forall|j: int| 0 <= j < i ==> (#[trigger] m[j]).0 != k,
    ensures
        assoc_update(m, k, v) =~= m.update(i, (k, v)),
    decreases i,
{
    if i == 0 {
    } else {
        assert(m[0].0 != k);
        assert forall|j: int| 0 <= j < i - 1 implies (#[trigger] m.drop_first()[j]).0 != k by {
            assert(m.drop_first()[j] == m[j + 1]);
        }
        assert(m.drop_first()[i - 1] == m[i]);
        lemma_assoc_update_found(m.drop_first(), k, v, i - 1);
        assert(seq![m[0]] + m.drop_first().update(i - 1, (k, v)) =~= m.update(i, (k, v)));
    }
}

/// Updating a key that no entry has appends a new entry.
proof fn lemma_assoc_update_missing(m: Seq<(Seq<char>, Seq<char>)>, k: Seq<char>, v: Seq<char>)
    requires
        forall|j: int| 0 <= j < m.len() ==> (#[trigger] m[j]).0 != k,
    ensures
        assoc_update(m, k, v) =~= m.push((k, v)),
    decreases m.len(),
{
    if m.len() > 0 {
        assert(m[0].0 != k);
        assert forall|j: int| 0 <= j < m.drop_first().len() implies (#[trigger] m.drop_first()[j]).0
            != k by {
            assert(m.drop_first()[j] == m[j + 1]);
        }
        lemma_assoc_update_missing(m.drop_first(), k, v);
        assert(seq![m[0]] + m.drop_first().push((k, v)) =~= m.push((k, v)));
    }
}

/// The directory itself.
#[allow(non_camel_case_types)]
pub struct employee_manage {
    data: Vec<String>,
    employee_department_map: Vec<(String, String)>,
}

impl View for employee_manage {
    type V = EmployeeModel;

    closed spec fn view(&self) -> EmployeeModel {
        EmployeeModel {
            names: self.data.deep_view(),
            departments: Seq::new(
                self.employee_department_map@.len(),
                |i: int|
                    (
                        self.employee_department_map@[i].0@,
                        self.employee_department_map@[i].1@,
                    ),
            ),
        }
    }
}

impl employee_manage {
    /// An empty directory.
    pub fn new() -> (r: employee_manage)
        ensures
            r@.names == Seq::<Seq<char>>::empty(),
            r@.departments == Seq::<(Seq<char>, Seq<char>)>::empty(),
    {
        let r = employee_manage { data: Vec::new(), employee_department_map: Vec::new() };
        proof {
            assert(r@.names =~= Seq::<Seq<char>>::empty());
            assert(r@.departments =~= Seq::<(Seq<char>, Seq<char>)>::empty());
        }
        r
    }

    /// Record an employee: remember the name in order, and map it to the
    /// department, overwriting an earlier department of the same name.
    pub fn add_employee(&mut self, name: String, department: String)
        ensures
            final(self)@.names == old(self)@.names.push(name@),
            final(self)@.departments == assoc_update(
                old(self)@.departments,
                name@,
                department@,
            ),
    {
        self.data.push(name.clone());
        proof {
            assert(self@.names =~= old(self)@.names.push(name@));
        }
        let ghost m = self@.departments;
        let ghost names_now = self@.names;
        let n = self.employee_department_map.len();
        let mut i: usize = 0;
        while i < n
            invariant
                i <= n,
                n == m.len(),
                names_now == old(self)@.names.push(name@),
                m == old(self)@.departments,
                self@.names == names_now,
                self@.departments == m,
                forall|j: int| 0 <= j < i ==> (#[trigger] m[j]).0 != name@,
            decreases n - i,
        {
            if self.employee_department_map[i].0 == name {
                let entry = (name.clone(), department.clone());
                self.employee_department_map.set(i, entry);
                proof {
                    lemma_assoc_update_found(m, name@, department@, i as int);
                    assert(self@.departments =~= m.update(i as int, (name@, department@)));
                    assert(self@.names =~= names_now);
                }
                return ;
            }
            i = i + 1;
        }
        self.employee_department_map.push((name, department));
        proof {
            lemma_assoc_update_missing(m, name@, department@);
            assert(self@.departments =~= m.push((name@, department@)));
            assert(self@.names =~= names_now);
        }
    }

    /// Every name-to-department entry, in the map's order, for a caller to
    /// print or inspect.
    pub fn entries(&self) -> (r: &Vec<(String, String)>)
        ensures
            r@.len() == self@.departments.len(),
            forall|i: int|
                0 <= i < r@.len() ==> (#[trigger] r@[i]).0@ == self@.departments[i].0 && r@[i].1@
                    == self@.departments[i].1,
    {
        &self.employee_department_map
    }
}

} // verus!
