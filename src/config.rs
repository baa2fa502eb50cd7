use vstd::prelude::*;

verus! {

/// Settings in the format of the Kinesis agent: where checkpoints are kept and
/// which endpoint receives the records.
pub struct KinesisConfig {
    checkpoint: String,
    endpoint: String,
}

impl KinesisConfig {
    pub closed spec fn spec_checkpoint(&self) -> Seq<char> {
        self.checkpoint@
    }

    pub closed spec fn spec_endpoint(&self) -> Seq<char> {
        self.endpoint@
    }

    pub fn new(checkpoint: String, endpoint: String) -> (r: KinesisConfig)
        ensures
            r.spec_checkpoint() == checkpoint@,
            r.spec_endpoint() == endpoint@,
    {
        KinesisConfig { checkpoint, endpoint }
    }

    pub fn checkpoint(&self) -> (r: &String)
        ensures
            r@ == self.spec_checkpoint(),
    {
        &self.checkpoint
    }

    pub fn endpoint(&self) -> (r: &String)
        ensures
            r@ == self.spec_endpoint(),
    {
        &self.endpoint
    }
}

} // verus!
