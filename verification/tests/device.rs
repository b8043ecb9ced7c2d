use xlurm::device::{
    ascend_idle, ascend_inventory_query, locate, nvidia_idle, nvidia_inventory_query,
    nvidia_usage_query, parse_ascend, parse_nvidia, probe_is_over, probe_result, tool_places,
    validate, Backend, Inventory,
};
use xlurm::error::Error;
use xlurm::model::{Device, Kind};

#[test]
fn ascend_uses_logical_ids_and_ignores_management_chips() {
    let devices = parse_ascend("NPU ID  Chip ID  Chip Logic ID  Chip Name\n4 0 2 Ascend910B\n4 1 3 Ascend910B\n4 2 - Mcu\n").unwrap();
    assert_eq!(
        devices
            .iter()
            .map(|d| (d.id, d.npu, d.chip))
            .collect::<Vec<_>>(),
        vec![(2, Some(4), Some(0)), (3, Some(4), Some(1))]
    );
}

#[test]
fn ascend_supports_phy_id_and_rejects_ambiguous_mapping() {
    let devices =
        parse_ascend("NPU ID Slot ID Chip ID Chip Phy-ID Chip Name\n7 0 0 5 Ascend950PR\n")
            .unwrap();
    assert_eq!(devices[0].visible, "5");
    assert_eq!(devices[0].chip, None);
    assert!(parse_ascend("NPU ID Chip ID Chip Name\n0 0 Ascend\n0 1 Ascend\n").is_err());
}

#[test]
fn nvidia_uses_uuid_instead_of_unstable_ordinal() {
    let devices = parse_nvidia("3, GPU-abc, NVIDIA H100\n").unwrap();
    assert_eq!(devices[0].visible, "GPU-abc");
    assert!(parse_nvidia("driver failure").is_err());
}

#[test]
fn ascend_process_formats_fail_closed() {
    assert_eq!(
        ascend_idle("NPU ID : 0\nNo process in device.\n"),
        Some(true)
    );
    assert_eq!(
        ascend_idle("No running processes found in NPU 4"),
        Some(true)
    );
    assert_eq!(
        ascend_idle("Process id:45180 Process name:VLLMEngineCor"),
        Some(false)
    );
    assert_eq!(ascend_idle("Failed to query device"), None);
}

fn gpu_report() -> Option<Result<String, Error>> {
    Some(Ok("0, GPU-a, NVIDIA H100\n1, GPU-b, NVIDIA H100\n".into()))
}

fn npu_report() -> Option<Result<String, Error>> {
    Some(Ok("NPU ID Chip ID Chip Logic ID Chip Name\n4 0 2 Ascend910B\n4 1 3 Ascend910B\n".into()))
}

fn broken() -> Option<Result<String, Error>> {
    Some(Err(Error::ProbeTimeout))
}

fn keys(devices: &[Device]) -> Vec<String> {
    devices.iter().map(|device| device.key()).collect()
}

#[test]
fn nvidia_lines_have_three_fields() {
    let devices = parse_nvidia("\n 7 , GPU-x , NVIDIA A100, 80 GB \r\n\n").unwrap();
    assert_eq!(devices.len(), 1);
    assert_eq!(
        (devices[0].id, devices[0].visible.as_str(), devices[0].name.as_str()),
        (7, "GPU-x", "NVIDIA A100, 80 GB")
    );
    assert_eq!(devices[0].kind, Kind::Nvidia);
    assert_eq!((devices[0].npu, devices[0].chip), (None, None));
    let message = |text: &str| parse_nvidia(text).unwrap_err().message();
    assert_eq!(message("0, GPU-x"), "invalid nvidia-smi inventory");
    assert_eq!(message("0, MIG-x, name"), "invalid nvidia-smi inventory");
    assert_eq!(message("x, GPU-x, name"), "invalid digit found in string");
    assert_eq!(message(", GPU-x, name"), "cannot parse integer from empty string");
    assert_eq!(
        message("4294967296, GPU-x, name"),
        "number too large to fit in target type"
    );
    assert_eq!(message(" \n"), "no compute devices discovered");
    assert_eq!(
        message("0, GPU-x, a\n1, GPU-x, b"),
        "duplicate device IDs in inventory"
    );
}

#[test]
fn ascend_rows_are_ordered_and_checked() {
    let text = "preface\nNPU ID Chip ID Chip Logic ID Chip Name\n9 0 5 Ascend\n8 0 1 Ascend\n8 1 0 Ascend\n\nNPU note\n";
    let devices = parse_ascend(text).unwrap();
    assert_eq!(
        devices
            .iter()
            .map(|d| (d.id, d.npu, d.chip))
            .collect::<Vec<_>>(),
        vec![(0, Some(8), Some(1)), (1, Some(8), Some(0)), (5, Some(9), None)]
    );
    let message = |text: &str| parse_ascend(text).unwrap_err().message();
    assert_eq!(message("no table"), "missing Ascend mapping header");
    assert_eq!(message("NPU IDs Chip Logic ID\n1 2"), "missing NPU ID");
    assert_eq!(
        message("NPU ID Chip Logic ID\n1\n"),
        "short Ascend mapping row"
    );
    assert_eq!(
        message("NPU ID Chip Logic ID\n1 x\n"),
        "invalid logical device ID; refusing to guess Ascend mapping: invalid digit found in string"
    );
    assert_eq!(
        message("NPU ID Chip ID Chip Logic ID\n1 x 2\n"),
        "invalid Ascend chip ID: invalid digit found in string"
    );
    assert_eq!(message("NPU ID\n"), "no compute devices discovered");
    assert_eq!(
        message("NPU ID Chip ID\n3 0\n3 1\n"),
        "duplicate device IDs in inventory"
    );
    let bare = parse_ascend("NPU ID\n3\n").unwrap();
    assert_eq!((bare[0].id, bare[0].name.as_str()), (3, "Ascend"));
}

#[test]
fn nvidia_usage_is_a_list_of_uuids() {
    let a = "GPU-a".to_string();
    assert_eq!(nvidia_idle("", &a), Some(true));
    assert_eq!(nvidia_idle(" GPU-b \n\n", &a), Some(true));
    assert_eq!(nvidia_idle("GPU-b\nGPU-a\n", &a), Some(false));
    assert_eq!(nvidia_idle("GPU-a\nNo devices", &a), None);
}

#[test]
fn discovery_looks_for_the_wanted_vendors() {
    let both = Inventory::discover(Backend::Auto, gpu_report(), npu_report())
        .ok()
        .unwrap();
    assert_eq!(
        keys(&both.inventory.devices),
        vec!["nvidia:GPU-a", "nvidia:GPU-b", "ascend:2", "ascend:3"]
    );
    assert!(both.warnings.is_empty());
    let one = Inventory::discover(Backend::Ascend, None, npu_report())
        .ok()
        .unwrap();
    assert_eq!(keys(&one.inventory.devices), vec!["ascend:2", "ascend:3"]);
    let none = Inventory::discover(Backend::Cpu, None, None).ok().unwrap();
    assert!(none.inventory.devices.is_empty() && none.warnings.is_empty());
}

#[test]
fn a_missing_driver_matters_only_where_it_was_asked_for() {
    let auto = Inventory::discover(Backend::Auto, broken(), npu_report())
        .ok()
        .unwrap();
    assert_eq!(auto.inventory.devices.len(), 2);
    assert_eq!(auto.warnings.len(), 1);
    assert_eq!(auto.warnings[0].0, Kind::Nvidia);
    assert_eq!(
        auto.warnings[0].1.message(),
        "device probe timed out after 3 seconds"
    );
    let named = Inventory::discover(Backend::Nvidia, broken(), None).err();
    assert_eq!(
        named.unwrap().message(),
        "device probe timed out after 3 seconds"
    );
}

#[test]
fn failed_monitoring_is_unknown() {
    let mut inventory = Inventory::discover(Backend::Auto, gpu_report(), npu_report())
        .ok()
        .unwrap()
        .inventory;
    assert!(inventory.needs_nvidia_report());
    let status = |inventory: &Inventory| -> Vec<String> {
        inventory
            .devices
            .iter()
            .map(|device| inventory.status.get(&device.key()).unwrap().clone())
            .collect()
    };
    inventory.refresh(
        &Some("GPU-b\n".into()),
        &vec![None, None, Some("No process in device.".into()), None],
    );
    assert_eq!(status(&inventory), vec!["idle", "busy", "idle", "unknown"]);
    inventory.refresh(&None, &vec![None, None, Some("Process id:1".into()), None]);
    assert_eq!(
        status(&inventory),
        vec!["unknown", "unknown", "busy", "unknown"]
    );
}

#[test]
fn driver_tools_are_asked_in_their_own_words() {
    assert_eq!(
        nvidia_inventory_query(),
        vec!["--query-gpu=index,uuid,name", "--format=csv,noheader,nounits"]
    );
    assert_eq!(
        nvidia_usage_query(),
        vec!["--query-compute-apps=gpu_uuid", "--format=csv,noheader,nounits"]
    );
    assert_eq!(ascend_inventory_query(), vec!["info", "-m"]);
    let devices = parse_ascend("NPU ID Chip ID Chip Logic ID\n4 0 2\n4 1 3\n5 0 9\n").unwrap();
    assert_eq!(
        devices[1].ascend_probe(),
        vec!["info", "-t", "proc-mem", "-i", "4", "-c", "1"]
    );
    assert_eq!(
        devices[2].ascend_probe(),
        vec!["info", "-t", "proc-mem", "-i", "5"]
    );
}

#[test]
fn driver_tools_are_found_on_the_search_path_first() {
    let places = tool_places(
        "npu-smi",
        &vec![b"/usr/bin".to_vec(), b"/opt/".to_vec(), b"".to_vec()],
        &vec![b"/usr/local/sbin/npu-smi".to_vec()],
    );
    assert_eq!(
        places,
        vec![
            b"/usr/bin/npu-smi".to_vec(),
            b"/opt/npu-smi".to_vec(),
            b"npu-smi".to_vec(),
            b"/usr/local/sbin/npu-smi".to_vec(),
        ]
    );
    let found = |is_file: [bool; 4]| locate("npu-smi", &places, &is_file.to_vec());
    assert_eq!(found([false, true, false, true]), b"/opt/npu-smi");
    assert_eq!(found([false, false, false, true]), b"/usr/local/sbin/npu-smi");
    assert_eq!(found([false; 4]), b"npu-smi");
}

#[test]
fn probes_are_limited_and_report_what_the_tool_said() {
    assert!(!probe_is_over(false, 2999));
    assert!(probe_is_over(false, 3000));
    assert!(probe_is_over(true, 0));
    let result = |success: Option<bool>, text: &[u8]| {
        probe_result(
            "npu-smi".into(),
            success,
            " out \n".into(),
            "\terr".into(),
            String::from_utf8(text.to_vec()).map_err(|error| error.to_string()),
        )
    };
    assert_eq!(
        result(None, b"text").unwrap_err().message(),
        "device probe timed out after 3 seconds"
    );
    assert_eq!(
        result(Some(false), b"text").unwrap_err().message(),
        "npu-smi failed: out err"
    );
    assert_eq!(result(Some(true), b" text ").unwrap(), " text ");
    assert_eq!(
        result(Some(true), b"ab\xff").unwrap_err().message(),
        "invalid utf-8 sequence of 1 bytes from index 2"
    );
}

#[test]
fn inventories_hold_no_device_twice() {
    let devices = parse_nvidia("0, GPU-a, x\n1, GPU-b, y\n").unwrap();
    assert_eq!(validate(devices.clone()).unwrap().len(), 2);
    let twice = vec![devices[0].clone(), devices[1].clone(), devices[0].clone()];
    assert_eq!(
        validate(twice).unwrap_err().message(),
        "duplicate device IDs in inventory"
    );
    assert_eq!(
        validate(vec![]).unwrap_err().message(),
        "no compute devices discovered"
    );
}

#[test]
fn backends_are_chosen_by_name() {
    let names: Vec<&str> = [Backend::Auto, Backend::Nvidia, Backend::Ascend, Backend::Cpu]
        .iter()
        .map(|backend| backend.name())
        .collect();
    assert_eq!(names, vec!["auto", "nvidia", "ascend", "none"]);
    assert!(Backend::Auto.wants(Kind::Nvidia) && Backend::Auto.wants(Kind::Ascend));
    assert!(Backend::Nvidia.wants(Kind::Nvidia) && !Backend::Nvidia.wants(Kind::Ascend));
    assert!(!Backend::Cpu.wants(Kind::Nvidia) && !Backend::Cpu.wants(Kind::Ascend));
}
