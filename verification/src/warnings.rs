use vstd::prelude::*;
use vstd::string::StrSliceExecFns;

use crate::models::{clone_names, valid_key, valid_key_char, WarningModel, WarningsCollector};

verus! {

/// One recorded data-quality diagnostic, ready for rendering.
#[derive(Clone, Debug)]
pub enum Warning {
    EmptyValues { key: String, configurations: Vec<String>, all_empty: bool },
    InvalidKeyName { key: String, configurations: Vec<String> },
    DuplicatedKey { key: String, configuration: String },
}

impl Warning {
    pub open spec fn model(&self) -> WarningModel {
        match self {
            Warning::EmptyValues { key, configurations, all_empty } => (WarningModel::EmptyValues {
                key: key@,
                configurations: configurations.deep_view(),
                all_empty: *all_empty,
            }),
            Warning::InvalidKeyName { key, configurations } => (WarningModel::InvalidKeyName {
                key: key@,
                configurations: configurations.deep_view(),
            }),
            Warning::DuplicatedKey { key, configuration } => (WarningModel::DuplicatedKey {
                key: key@,
                configuration: configuration@,
            }),
        }
    }
}

/// Decides whether a key name holds only allowed characters.
pub fn is_valid_key(s: &str) -> (r: bool)
    ensures
        r == valid_key(s@),
{
    let len = s.unicode_len();
    let mut i: usize = 0;
    while i < len
        invariant
            i <= len,
            len == s@.len(),
            forall|j: int| 0 <= j < i ==> valid_key_char(s@[j]),
        decreases len - i,
    {
        let c = s.get_char(i);
        let ok = ('a' <= c && c <= 'z') || ('A' <= c && c <= 'Z') || ('0' <= c && c <= '9') || c
            == '_';
        if !ok {
            assert(!valid_key_char(s@[i as int]));
            return false;
        }
        i = i + 1;
    }
    true
}

/// Collects diagnostics instead of failing: empty values are buffered per
/// row and flushed consolidated, key-name and duplicate-key findings are
/// reported at once.
pub struct Warnings {
    configurations_count: usize,
    empty_values_configurations: Vec<String>,
    reports: Vec<Warning>,
}

impl Warnings {
    pub fn new(configurations_count: usize) -> (w: Warnings)
        ensures
            w.configurations_count() == configurations_count,
            w.pending_empty() == Seq::<Seq<char>>::empty(),
            w.reports() == Seq::<WarningModel>::empty(),
    {
        let w = Warnings {
            configurations_count,
            empty_values_configurations: Vec::new(),
            reports: Vec::new(),
        };
        assert(w.reports@.map_values(|x: Warning| x.model()) =~= Seq::<WarningModel>::empty());
        w
    }

    /// The recorded diagnostics, in the order they were found.
    pub fn report_list(&self) -> (r: &Vec<Warning>)
        ensures
            r@.map_values(|x: Warning| x.model()) == self.reports(),
    {
        &self.reports
    }
}

impl WarningsCollector for Warnings {
    closed spec fn configurations_count(&self) -> nat {
        self.configurations_count as nat
    }

    closed spec fn pending_empty(&self) -> Seq<Seq<char>> {
        self.empty_values_configurations.deep_view()
    }

    closed spec fn reports(&self) -> Seq<WarningModel> {
        self.reports@.map_values(|x: Warning| x.model())
    }

    fn remember_empty_value(&mut self, configuration: &String) {
        self.empty_values_configurations.push(configuration.clone());
        assert(self.empty_values_configurations.deep_view() =~= old(
            self,
        ).empty_values_configurations.deep_view().push(configuration@));
    }

    fn handle_empty_values(&mut self, key: &String) {
        if self.empty_values_configurations.len() > 0 {
            let all_empty = self.configurations_count == self.empty_values_configurations.len();
            let mut taken: Vec<String> = Vec::new();
            std::mem::swap(&mut taken, &mut self.empty_values_configurations);
            let w = Warning::EmptyValues { key: key.clone(), configurations: taken, all_empty };
            self.reports.push(w);
            assert(self.empty_values_configurations.deep_view() =~= Seq::<Seq<char>>::empty());
            assert(self.reports@.map_values(|x: Warning| x.model()) =~= old(
                self,
            ).reports@.map_values(|x: Warning| x.model()).push(w.model()));
        } else {
            assert(self.empty_values_configurations.deep_view() =~= Seq::<Seq<char>>::empty());
        }
    }

    fn check_key_name(&mut self, key: &String, configurations: &Vec<String>) {
        let ok = is_valid_key(key.as_str());
        if !ok {
            let w = Warning::InvalidKeyName {
                key: key.clone(),
                configurations: clone_names(configurations),
            };
            self.reports.push(w);
            assert(self.reports@.map_values(|x: Warning| x.model()) =~= old(
                self,
            ).reports@.map_values(|x: Warning| x.model()).push(w.model()));
        }
    }

    fn duplicated_key(&mut self, key: &String, configuration: &String) {
        let w = Warning::DuplicatedKey { key: key.clone(), configuration: configuration.clone() };
        self.reports.push(w);
        assert(self.reports@.map_values(|x: Warning| x.model()) =~= old(self).reports@.map_values(
            |x: Warning| x.model(),
        ).push(w.model()));
    }
}

} // verus!
