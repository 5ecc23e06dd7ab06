use vstd::prelude::*;

use crate::project::{views_of, Project, ProjectView};

verus! {

/// The projects offered to the user for an interactive choice.
pub struct InteractivePicker {
    projects: Vec<Project>,
}

impl View for InteractivePicker {
    type V = Seq<ProjectView>;

    closed spec fn view(&self) -> Seq<ProjectView> {
        views_of(self.projects@)
    }
}

impl InteractivePicker {
    /// A picker offering `projects`, in this order.
    pub fn new(projects: Vec<Project>) -> (r: InteractivePicker)
        ensures
            r@ == views_of(projects@),
    {
        InteractivePicker { projects }
    }

    /// The projects offered.
    pub fn projects(&self) -> (r: &Vec<Project>)
        ensures
            views_of(r@) == self@,
    {
        &self.projects
    }

    /// The project the user chose by its display path: the first offered
    /// with that display path, if any.
    pub fn selected(&self, display: &str) -> (r: Option<Project>)
        ensures
            r is None <==> forall|k: int| 0 <= k < self@.len() ==> (#[trigger] self@[k]).display_path != display@,
            r is Some ==> exists|k: int|
                0 <= k < self@.len() && r->0@ == self@[k] && self@[k].display_path == display@
                    && forall|t: int| 0 <= t < k ==> (#[trigger] self@[t]).display_path != display@,
    {
        let ghost v = self@;
        let target = String::from_str(display);
        let mut k: usize = 0;
        while k < self.projects.len()
            invariant
                k <= self.projects.len(),
                v == views_of(self.projects@),
                v == self@,
                target@ == display@,
                forall|t: int| 0 <= t < k ==> (#[trigger] v[t]).display_path != display@,
            decreases self.projects.len() - k,
        {
            assert(v[k as int] == self.projects@[k as int]@);
            if self.projects[k].display_path == target {
                let found = self.projects[k].duplicate();
                assert(found@ == v[k as int] && v[k as int].display_path == display@);
                return Some(found);
            }
            k = k + 1;
        }
        None
    }
}

} // verus!
