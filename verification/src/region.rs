//! Cloud providers and their regions, as the cloud API reports them.

use vstd::prelude::*;
use vstd::string::*;

verus! {

/// Cloud providers and regions available.
#[derive(Clone, Copy, PartialEq, Eq, Structural, Debug)]
pub enum CloudProviderRegion {
    AwsUsEast1,
    AwsEuWest1,
}

impl CloudProviderRegion {
    /// The name of the region inside its cloud provider.
    pub open spec fn name(self) -> Seq<char> {
        match self {
            CloudProviderRegion::AwsUsEast1 => "us-east-1"@,
            CloudProviderRegion::AwsEuWest1 => "eu-west-1"@,
        }
    }

    /// The provider and the region, separated by a slash.
    pub open spec fn text(self) -> Seq<char> {
        match self {
            CloudProviderRegion::AwsUsEast1 => "aws/us-east-1"@,
            CloudProviderRegion::AwsEuWest1 => "aws/eu-west-1"@,
        }
    }

    /// Return the region name inside a cloud provider.
    pub fn region_name(self) -> (r: &'static str)
        ensures
            r@ == self.name(),
    {
        match self {
            CloudProviderRegion::AwsUsEast1 => "us-east-1",
            CloudProviderRegion::AwsEuWest1 => "eu-west-1",
        }
    }

    /// The provider and the region, separated by a slash.
    pub fn to_string(&self) -> (r: String)
        ensures
            r@ == self.text(),
    {
        match self {
            CloudProviderRegion::AwsUsEast1 => String::from_str("aws/us-east-1"),
            CloudProviderRegion::AwsEuWest1 => String::from_str("aws/eu-west-1"),
        }
    }
}

/// The lower-case form of a text, as `str::to_lowercase` yields it.
pub uninterp spec fn lowercase(s: Seq<char>) -> Seq<char>;

/// The text in lower case. This rests on `str::to_lowercase` of the
/// standard library: the result is the lower-case form of the text, which
/// depends on the text alone.
#[verifier::external_body]
fn to_lowercase(s: &str) -> (r: String)
    ensures
        r@ == lowercase(s@),
{
    s.to_lowercase()
}

/// A text that names no region.
#[derive(Debug, PartialEq, Eq)]
pub struct UnknownRegion {
    /// The text as it was given.
    pub region: String,
}

impl UnknownRegion {
    /// The message for the user.
    pub fn to_string(&self) -> (r: String)
        ensures
            r@ == "Unknown region "@ + self.region@,
    {
        let mut message = String::from_str("Unknown region ");
        message.append(self.region.as_str());
        message
    }
}

/// The region that a text in lower case names.
pub open spec fn region_named(lower: Seq<char>) -> Option<CloudProviderRegion> {
    if lower == CloudProviderRegion::AwsUsEast1.text() {
        Some(CloudProviderRegion::AwsUsEast1)
    } else if lower == CloudProviderRegion::AwsEuWest1.text() {
        Some(CloudProviderRegion::AwsEuWest1)
    } else {
        None
    }
}

impl CloudProviderRegion {
    /// The region that a text in lower case names.
    pub fn from_lowercase(lower: &String) -> (r: Option<CloudProviderRegion>)
        ensures
            r == region_named(lower@),
    {
        if *lower == CloudProviderRegion::AwsUsEast1.to_string() {
            Some(CloudProviderRegion::AwsUsEast1)
        } else if *lower == CloudProviderRegion::AwsEuWest1.to_string() {
            Some(CloudProviderRegion::AwsEuWest1)
        } else {
            None
        }
    }

    /// The region that the text names, whatever the case of its letters.
    pub fn from_str(s: &str) -> (r: Result<CloudProviderRegion, UnknownRegion>)
        ensures
            match r {
                Ok(region) => region_named(lowercase(s@)) == Some(region),
                Err(e) => region_named(lowercase(s@)) is None && e.region@ == s@,
            },
    {
        match Self::from_lowercase(&to_lowercase(s)) {
            Some(region) => Ok(region),
            None => Err(UnknownRegion { region: String::from_str(s) }),
        }
    }
}

/// Where a region can be reached.
#[derive(Debug)]
pub struct RegionInfo {
    pub sql_address: String,
    pub http_address: String,
    pub resolvable: bool,
}

/// A region of a cloud provider, with its addresses once it is enabled.
#[derive(Debug)]
pub struct Region {
    pub region_info: Option<RegionInfo>,
}

/// The cloud providers that the cloud API lists.
#[derive(Debug)]
pub struct CloudProviderResponse {
    pub data: Vec<CloudProvider>,
}

/// A cloud provider's region as the cloud API lists it.
#[derive(Debug)]
pub struct CloudProvider {
    pub id: String,
    pub name: String,
    pub url: String,
    pub cloud_provider: String,
}

/// A cloud provider's region with what is known of its state.
#[derive(Debug)]
pub struct CloudProviderAndRegion {
    pub cloud_provider: CloudProvider,
    pub region: Option<Region>,
}

impl Clone for CloudProvider {
    fn clone(&self) -> (r: Self)
        ensures
            r == *self,
    {
        CloudProvider {
            id: self.id.clone(),
            name: self.name.clone(),
            url: self.url.clone(),
            cloud_provider: self.cloud_provider.clone(),
        }
    }
}

impl CloudProviderResponse {
    /// The position of the first provider whose name is the name of the
    /// region, if there is one.
    pub fn position_of(&self, region: CloudProviderRegion) -> (r: Option<usize>)
        ensures
            match r {
                Some(i) => {
                    &&& i < self.data.len()
                    &&& self.data[i as int].name@ == region.name()
                    &&& forall|j: int| 0 <= j < i ==> self.data[j].name@ != region.name()
                },
                None => forall|j: int| 0 <= j < self.data.len() ==> self.data[j].name@ != region.name(),
            },
    {
        let wanted = String::from_str(region.region_name());
        let mut i: usize = 0;
        while i < self.data.len()
            invariant
                i <= self.data.len(),
                wanted@ == region.name(),
                forall|j: int| 0 <= j < i ==> self.data[j].name@ != region.name(),
            decreases self.data.len() - i,
        {
            if self.data[i].name == wanted {
                return Some(i);
            }
            i += 1;
        }
        None
    }
}

/// The position of the first occurrence of the character in the text, or
/// the length of the text if it does not occur.
pub open spec fn position_of_char(text: Seq<char>, c: char) -> int
    decreases text.len(),
{
    if text.len() == 0 || text[0] == c {
        0
    } else {
        1 + position_of_char(text.skip(1), c)
    }
}

/// The image from which a region is started, for a version as the user
/// gives it: `user:version` names the image of that user, and a version
/// without a colon names the image of the standard distribution.
pub open spec fn image_ref(version: Seq<char>) -> Seq<char> {
    let at = position_of_char(version, ':');
    if at < version.len() {
        version.subrange(0, at) + "/environmentd:"@ + version.subrange(
            at + 1,
            version.len() as int,
        )
    } else {
        "materialize/environmentd:"@ + version
    }
}

/// The image from which a region is started, for a version as the user
/// gives it: `user:version` names the image of that user, and a version
/// without a colon names the image of the standard distribution.
pub fn environmentd_image_ref(version: &str) -> (r: String)
    ensures
        r@ == image_ref(version@),
{
    let n = version.unicode_len();
    let mut at: usize = 0;
    proof {
        assert(version@.skip(0) =~= version@);
    }
    while at < n && version.get_char(at) != ':'
        invariant
            at <= n,
            n == version@.len(),
            position_of_char(version@, ':') == at + position_of_char(version@.skip(at as int), ':'),
        decreases n - at,
    {
        proof {
            assert(version@.skip(at as int)[0] == version@[at as int]);
            assert(version@.skip(at as int).skip(1) =~= version@.skip(at as int + 1));
        }
        at += 1;
    }
    proof {
        if at < n {
            assert(version@.skip(at as int)[0] == version@[at as int]);
        }
    }
    if at < n {
        let mut image = String::from_str(version.substring_char(0, at));
        image.append("/environmentd:");
        image.append(version.substring_char(at + 1, n));
        image
    } else {
        let mut image = String::from_str("materialize/environmentd:");
        image.append(version);
        image
    }
}

} // verus!
