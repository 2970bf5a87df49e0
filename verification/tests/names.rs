use literal_constraints::cloud_resources::{
    vpc_endpoint_host, vpc_endpoint_name, AwsExternalIdPrefix, VpcEndpointConfig,
};
use literal_constraints::index::{decimal_string, GlobalId};
use literal_constraints::parameters::{ProtoUpsertAutoSpillConfig, UpsertAutoSpillConfig};
use literal_constraints::region::{
    environmentd_image_ref, CloudProvider, CloudProviderAndRegion, CloudProviderRegion, CloudProviderResponse, Region,
    RegionInfo, UnknownRegion,
};

#[test]
fn decimal_strings() {
    assert_eq!(decimal_string(0), "0");
    assert_eq!(decimal_string(7), "7");
    assert_eq!(decimal_string(10), "10");
    assert_eq!(decimal_string(1234567890), "1234567890");
    assert_eq!(decimal_string(u64::MAX), "18446744073709551615");
}

#[test]
fn global_ids_as_text() {
    assert_eq!(GlobalId::System(1).to_string(), "s1");
    assert_eq!(GlobalId::User(42).to_string(), "u42");
    assert_eq!(GlobalId::Transient(307).to_string(), "t307");
    assert_eq!(GlobalId::Explain.to_string(), "Explained Query");
    assert!(GlobalId::Transient(1).is_transient());
    assert!(!GlobalId::User(1).is_transient());
}

#[test]
fn endpoint_names() {
    assert_eq!(vpc_endpoint_name(GlobalId::User(42)), "connection-u42");
    assert_eq!(vpc_endpoint_host(GlobalId::User(42), None), "connection-u42");
    assert_eq!(vpc_endpoint_host(GlobalId::User(42), Some("use1-az1")), "connection-u42-use1-az1");
    assert_eq!(vpc_endpoint_host(GlobalId::System(5), Some("")), "connection-s5-");
}

#[test]
fn external_id_prefix_keeps_its_text() {
    let prefix = AwsExternalIdPrefix::new_from_cli_argument_or_environment_variable("mz_1234");
    assert_eq!(prefix.to_string(), "mz_1234");
    let empty = AwsExternalIdPrefix::new_from_cli_argument_or_environment_variable("");
    assert_eq!(empty.to_string(), "");
}

#[test]
fn endpoint_config_holds_its_zones() {
    let config = VpcEndpointConfig {
        aws_service_name: "com.amazonaws.vpce.us-east-1.vpce-svc-1".to_string(),
        availability_zone_ids: vec!["use1-az1".to_string(), "use1-az4".to_string()],
    };
    assert_eq!(config.availability_zone_ids.len(), 2);
}

#[test]
fn region_names() {
    assert_eq!(CloudProviderRegion::AwsUsEast1.region_name(), "us-east-1");
    assert_eq!(CloudProviderRegion::AwsEuWest1.region_name(), "eu-west-1");
    assert_eq!(CloudProviderRegion::AwsUsEast1.to_string(), "aws/us-east-1");
    assert_eq!(CloudProviderRegion::AwsEuWest1.to_string(), "aws/eu-west-1");
}

#[test]
fn regions_are_parsed_whatever_the_case() {
    assert_eq!(CloudProviderRegion::from_str("aws/us-east-1"), Ok(CloudProviderRegion::AwsUsEast1));
    assert_eq!(CloudProviderRegion::from_str("AWS/EU-West-1"), Ok(CloudProviderRegion::AwsEuWest1));
    assert_eq!(CloudProviderRegion::from_str("AWS/US-EAST-1"), Ok(CloudProviderRegion::AwsUsEast1));
}

#[test]
fn unknown_region_is_reported_as_it_was_given() {
    let error = CloudProviderRegion::from_str("aws/Mars-1").unwrap_err();
    assert_eq!(error, UnknownRegion { region: "aws/Mars-1".to_string() });
    assert_eq!(error.to_string(), "Unknown region aws/Mars-1");
    assert!(CloudProviderRegion::from_str("us-east-1").is_err());
    assert!(CloudProviderRegion::from_str("").is_err());
}

fn provider(name: &str) -> CloudProvider {
    CloudProvider {
        id: format!("aws/{}", name),
        name: name.to_string(),
        url: format!("https://api.{}.example", name),
        cloud_provider: "aws".to_string(),
    }
}

#[test]
fn provider_is_found_by_the_name_of_its_region() {
    let response = CloudProviderResponse { data: vec![provider("eu-west-1"), provider("us-east-1")] };
    assert_eq!(response.position_of(CloudProviderRegion::AwsUsEast1), Some(1));
    assert_eq!(response.position_of(CloudProviderRegion::AwsEuWest1), Some(0));
    let none = CloudProviderResponse { data: vec![provider("ap-south-1")] };
    assert_eq!(none.position_of(CloudProviderRegion::AwsUsEast1), None);
    let twice = CloudProviderResponse { data: vec![provider("us-east-1"), provider("us-east-1")] };
    assert_eq!(twice.position_of(CloudProviderRegion::AwsUsEast1), Some(0));
}

#[test]
fn provider_with_its_region() {
    let info = RegionInfo {
        sql_address: "sql.example:6875".to_string(),
        http_address: "http.example:443".to_string(),
        resolvable: true,
    };
    let both = CloudProviderAndRegion {
        cloud_provider: provider("us-east-1"),
        region: Some(Region { region_info: Some(info) }),
    };
    assert_eq!(both.cloud_provider.clone().name, "us-east-1");
    assert!(both.region.unwrap().region_info.unwrap().resolvable);
}

#[test]
fn spill_config_goes_over_the_wire_and_back() {
    let config = UpsertAutoSpillConfig {
        allow_spilling_to_disk: true,
        spill_to_disk_threshold_bytes: 85 * 1024 * 1024,
    };
    let proto = config.into_proto();
    assert_eq!(
        proto,
        ProtoUpsertAutoSpillConfig {
            allow_spilling_to_disk: true,
            spill_to_disk_threshold_bytes: 89128960,
        }
    );
    assert_eq!(UpsertAutoSpillConfig::from_proto(proto), Ok(config));
    assert_eq!(
        UpsertAutoSpillConfig::default(),
        UpsertAutoSpillConfig { allow_spilling_to_disk: false, spill_to_disk_threshold_bytes: 0 }
    );
}

#[test]
fn image_refs() {
    assert_eq!(environmentd_image_ref("v0.60.0"), "materialize/environmentd:v0.60.0");
    assert_eq!(environmentd_image_ref("alice:v0.60.0"), "alice/environmentd:v0.60.0");
    assert_eq!(environmentd_image_ref("a:b:c"), "a/environmentd:b:c");
    assert_eq!(environmentd_image_ref(":x"), "/environmentd:x");
    assert_eq!(environmentd_image_ref("x:"), "x/environmentd:");
    assert_eq!(environmentd_image_ref(""), "materialize/environmentd:");
    assert_eq!(environmentd_image_ref("üser:v1"), "üser/environmentd:v1");
}
