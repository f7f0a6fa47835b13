//! Where the bucket is and how to reach it.
use vstd::prelude::*;

verus! {

/// The name of the configuration file in the home directory.
pub const CONFIG_FILE: &'static str = ".s3config";

/// The name of the datastore file in the home directory.
pub const DATASTORE_FILE: &'static str = "datastore.json";

/// The settings of the bucket.
#[derive(Debug, PartialEq, Eq)]
pub struct S3Config {
    pub endpoint: String,
    pub bucket: String,
    pub region: String,
    pub access_key: Option<String>,
    pub secret_key: Option<String>,
    /// The size of the parts into which new objects are cut.
    pub part_size: u64,
}

fn clone_key(key: &Option<String>) -> (r: Option<String>)
    ensures
        r == *key,
{
    match key {
        Some(text) => Some(text.clone()),
        None => None,
    }
}

impl Clone for S3Config {
    fn clone(&self) -> (r: Self)
        ensures
            r == *self,
    {
        S3Config {
            endpoint: self.endpoint.clone(),
            bucket: self.bucket.clone(),
            region: self.region.clone(),
            access_key: clone_key(&self.access_key),
            secret_key: clone_key(&self.secret_key),
            part_size: self.part_size,
        }
    }
}

impl S3Config {
    /// The access key and the secret key to sign requests with, where both are set.
    pub open spec fn signs_with(self) -> Option<(String, String)> {
        match (self.access_key, self.secret_key) {
            (Some(access), Some(secret)) => Some((access, secret)),
            _ => None,
        }
    }

    /// The access key and the secret key to sign requests with, where both are set. Requests are
    /// not signed otherwise.
    pub fn credentials(&self) -> (r: Option<(String, String)>)
        ensures
            r == (match (self.access_key, self.secret_key) {
                (Some(access), Some(secret)) => Some((access, secret)),
                _ => None,
            }),
            r == self.signs_with(),
    {
        match (&self.access_key, &self.secret_key) {
            (Some(access), Some(secret)) => Some((access.clone(), secret.clone())),
            _ => None,
        }
    }
}

/// Requests are signed if and only if both keys are set, whatever they are, and with these two.
pub proof fn law_both_keys_sign(config: S3Config)
    ensures
        config.signs_with() is Some <==> config.access_key is Some && config.secret_key is Some,
        config.signs_with() matches Some((access, secret)) ==> config.access_key == Some(access)
            && config.secret_key == Some(secret),
{
}

} // verus!
