use vstd::prelude::*;

verus! {

/// Settings of a run.
#[derive(Clone, Debug)]
pub struct Config {
    /// Width of a rating bucket.
    pub bucket_size: u16,
    /// Where the index of monthly archives is published.
    pub list_url: String,
    /// Games handed to the workers at a time.
    pub batch_size: usize,
    /// Number of workers; the machine's parallelism when absent.
    pub rayon_threads: Option<usize>,
}

impl Default for Config {
    fn default() -> (r: Config)
        ensures
            r.bucket_size == 200,
            r.batch_size == 1000,
            r.rayon_threads is None,
            r.list_url@ == "https://database.lichess.org/standard/list.txt"@,
    {
        Config {
            bucket_size: 200,
            list_url: String::from_str("https://database.lichess.org/standard/list.txt"),
            batch_size: 1000,
            rayon_threads: None,
        }
    }
}

} // verus!
