use pcilibs::infiniband::{
    ib_entry_from_quoted, infiniband_summary, DevNodeInfo, IbDeviceInfo, VerbsInfo,
};

#[test]
fn an_empty_system_has_empty_lists() {
    assert_eq!(
        infiniband_summary(&Vec::new(), &Vec::new(), &Vec::new()),
        "ib_devices=[] uverbs=[] chardevs=[]"
    );
}

#[test]
fn every_entry_is_summarised() {
    let ib = vec![
        IbDeviceInfo {
            name: "mlx5_0".to_string(),
            bdf: Some("0000:65:00.0".to_string()),
            node_type: Some("1: CA\n".to_string()),
            fw_ver: Some("28.39.1002\n".to_string()),
        },
        IbDeviceInfo { name: "mlx5_1".to_string(), bdf: None, node_type: None, fw_ver: None },
    ];
    let verbs = vec![
        VerbsInfo {
            name: "uverbs0".to_string(),
            ibdev: Some("mlx5_0\n".to_string()),
            dev: Some("231:192\n".to_string()),
        },
        VerbsInfo { name: "abi_version".to_string(), ibdev: None, dev: None },
        VerbsInfo { name: "uverbs1".to_string(), ibdev: None, dev: None },
    ];
    let nodes = vec![
        DevNodeInfo { name: "uverbs0".to_string(), is_char: true, is_block: false, rdev: 59328 },
        DevNodeInfo { name: "weird".to_string(), is_char: false, is_block: true, rdev: 0 },
        DevNodeInfo { name: "link".to_string(), is_char: false, is_block: false, rdev: 0x1234_5678_9abc },
    ];
    assert_eq!(
        infiniband_summary(&ib, &verbs, &nodes),
        "ib_devices=[mlx5_0=[bdf=0000:65:00.0,node_type=\"1: CA\",fw=28.39.1002], \
         mlx5_1=[bdf=<none>,node_type=\"\",fw=]] \
         uverbs=[uverbs0=[ibdev=mlx5_0,dev=231:192], uverbs1=[ibdev=,dev=]] \
         chardevs=[uverbs0=[char,231:192], weird=[block,0:0], link=[other,6298:591751100]]"
    );
}

#[test]
fn a_node_type_is_quoted_and_escaped() {
    let ib = vec![IbDeviceInfo {
        name: "x".to_string(),
        bdf: None,
        node_type: Some("a\"b\tc".to_string()),
        fw_ver: None,
    }];
    assert_eq!(
        infiniband_summary(&ib, &Vec::new(), &Vec::new()),
        "ib_devices=[x=[bdf=<none>,node_type=\"a\\\"b\\tc\",fw=]] uverbs=[] chardevs=[]"
    );
}

#[test]
fn an_entry_takes_the_quoted_node_type_as_given() {
    let d = IbDeviceInfo {
        name: "mlx5_0".to_string(),
        bdf: Some("0000:65:00.0".to_string()),
        node_type: Some("ignored".to_string()),
        fw_ver: Some(" 1.2 ".to_string()),
    };
    let entry: String = ib_entry_from_quoted(&d, "<q>").iter().collect();
    assert_eq!(entry, "mlx5_0=[bdf=0000:65:00.0,node_type=<q>,fw=1.2]");
}
