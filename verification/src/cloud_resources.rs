//! Names of the cloud resources that belong to a connection, and the prefix
//! of the external IDs under which roles are assumed.

use crate::index::GlobalId;
use vstd::prelude::*;
use vstd::string::*;

verus! {

/// A prefix for the external ID to use for all AWS AssumeRole operations.
/// It is followed by a suffix that identifies the source or sink and that
/// no user provides.
///
/// It is critical for security that this prefix is not provided by end
/// users. The operator of the service provides it; the unwieldy name of the
/// constructor guards against constructing one by accident.
#[derive(Debug)]
pub struct AwsExternalIdPrefix(String);

impl View for AwsExternalIdPrefix {
    type V = Seq<char>;

    closed spec fn view(&self) -> Seq<char> {
        self.0@
    }
}

impl AwsExternalIdPrefix {
    /// Creates a prefix from a command-line argument or an environment
    /// variable. It must come from the operator of the service, never from
    /// an end user.
    pub fn new_from_cli_argument_or_environment_variable(aws_external_id_prefix: &str) -> (r:
        AwsExternalIdPrefix)
        ensures
            r@ == aws_external_id_prefix@,
    {
        AwsExternalIdPrefix(String::from_str(aws_external_id_prefix))
    }

    /// The prefix as text.
    pub fn to_string(&self) -> (r: String)
        ensures
            r@ == self@,
    {
        self.0.clone()
    }
}

/// Configures a VPC endpoint.
#[derive(Debug)]
pub struct VpcEndpointConfig {
    /// The name of the service to connect to.
    pub aws_service_name: String,
    /// The IDs of the availability zones in which the service is available.
    pub availability_zone_ids: Vec<String>,
}

/// The name of the VPC endpoint of the connection `id`.
pub open spec fn endpoint_name(id: GlobalId) -> Seq<char> {
    "connection-"@ + id.text()
}

/// Returns the name to use for the VPC endpoint with the given ID.
pub fn vpc_endpoint_name(id: GlobalId) -> (r: String)
    ensures
        r@ == endpoint_name(id),
{
    let mut name = String::from_str("connection-");
    name.append(id.to_string().as_str());
    name
}

/// Returns the host to use for the VPC endpoint with the given ID, in the
/// given availability zone if there is one: the name of the endpoint,
/// followed by a hyphen and the zone.
pub fn vpc_endpoint_host(id: GlobalId, availability_zone: Option<&str>) -> (r: String)
    ensures
        r@ == match availability_zone {
            Some(az) => endpoint_name(id) + "-"@ + az@,
            None => endpoint_name(id),
        },
{
    let mut name = vpc_endpoint_name(id);
    match availability_zone {
        Some(az) => {
            name.append("-");
            name.append(az);
            name
        },
        None => name,
    }
}

} // verus!
