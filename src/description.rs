use vstd::prelude::*;

verus! {

/// A pipeline or tool that generated a dataset.
#[derive(Debug, Clone, Default)]
pub struct GeneratedBy {
    pub name: String,
    pub version: Option<String>,
    pub description: Option<String>,
    pub code_url: Option<String>,
    pub container: Option<String>,
}

/// A dataset a dataset was derived from.
#[derive(Debug, Clone, Default)]
pub struct SourceDataset {
    pub uri: Option<String>,
    pub doi: Option<String>,
    pub version: Option<String>,
}

/// The contents of a `dataset_description.json`.
#[derive(Debug, Clone, Default)]
pub struct DatasetDescription {
    pub name: Option<String>,
    pub bids_version: Option<String>,
    pub hed_version: Option<Vec<String>>,
    pub dataset_links: Option<Vec<(String, String)>>,
    pub dataset_type: Option<String>,
    pub license: Option<String>,
    pub authors: Option<Vec<String>>,
    pub acknowledgements: Option<String>,
    pub how_to_acknowledge: Option<String>,
    pub funding: Option<Vec<String>>,
    pub ethics_approvals: Option<Vec<String>>,
    pub references_and_links: Option<Vec<String>>,
    pub dataset_doi: Option<String>,
    pub generated_by: Option<Vec<GeneratedBy>>,
    pub source_datasets: Option<Vec<SourceDataset>>,
    pub pipeline_description: Option<GeneratedBy>,
}

/// The names of the generating pipelines of a description, in order, then the name in its
/// pipeline description.
pub open spec fn pipeline_seq(d: DatasetDescription) -> Seq<Seq<char>> {
    (match d.generated_by {
        Some(g) => Seq::new(g@.len(), |i: int| g@[i].name@),
        None => seq![],
    }) + (match d.pipeline_description {
        Some(p) => seq![p.name@],
        None => seq![],
    })
}

impl DatasetDescription {
    /// The pipeline names the description gives.
    pub fn pipeline_names(&self) -> (r: Vec<String>)
        ensures
            r@.len() == pipeline_seq(*self).len(),
            forall|i: int| 0 <= i < r@.len() ==> (#[trigger] r@[i])@ == pipeline_seq(*self)[i],
    {
        let mut out: Vec<String> = Vec::new();
        if let Some(g) = &self.generated_by {
            let mut k: usize = 0;
            while k < g.len()
                invariant
                    k <= g@.len(),
                    out@.len() == k,
                    forall|i: int| 0 <= i < k ==> (#[trigger] out@[i])@ == g@[i].name@,
                decreases g@.len() - k,
            {
                out.push(g[k].name.clone());
                k = k + 1;
            }
        }
        let ghost n0 = out@.len();
        if let Some(p) = &self.pipeline_description {
            out.push(p.name.clone());
        }
        out
    }
}

} // verus!
