use harmonicon::microphone::{connected_device_name, mic_banner_key, mic_banner_visible, MicStatus};

#[test]
fn mic_banner_hidden_only_once_connected() {
    assert!(!mic_banner_visible(&MicStatus::Connected {
        device_name: "Mic".into(),
    }));
    assert!(mic_banner_visible(&MicStatus::Failed {
        reason: "no device".into(),
    }));
    assert!(mic_banner_visible(&MicStatus::AwaitingPermission));
}

#[test]
fn connected_device_name_is_none_unless_connected() {
    assert_eq!(
        connected_device_name(&MicStatus::Connected {
            device_name: "USB Mic".into(),
        }),
        Some("USB Mic")
    );
    assert_eq!(
        connected_device_name(&MicStatus::Failed {
            reason: "no device".into(),
        }),
        None
    );
    assert_eq!(connected_device_name(&MicStatus::AwaitingPermission), None);
}

#[test]
fn mic_banner_text_is_distinct_per_status() {
    assert_eq!(
        mic_banner_key(&MicStatus::Connected {
            device_name: "Mic".into(),
        }),
        None,
        "a working mic has nothing to say"
    );
    assert_ne!(
        mic_banner_key(&MicStatus::AwaitingPermission),
        mic_banner_key(&MicStatus::Failed {
            reason: "no device".into(),
        }),
        "awaiting-permission needs its own message, not the generic failure one"
    );
}

#[test]
fn each_banner_status_names_its_message() {
    assert_eq!(
        mic_banner_key(&MicStatus::AwaitingPermission),
        Some("options-mic-awaiting-permission")
    );
    assert_eq!(
        mic_banner_key(&MicStatus::Failed {
            reason: "busy".into()
        }),
        Some("options-mic-failed")
    );
    assert!(MicStatus::Connected {
        device_name: String::new()
    }
    .is_connected());
}
