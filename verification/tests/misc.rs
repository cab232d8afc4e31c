use hylarana::camel::{export_name, get_package_name, to_camel_case, Token};
use hylarana::graphics::{
    copy_buffer_descriptors, create_texture_descriptor, views_descriptors, SampleKind,
    TextureAspect, TextureFormat, ViewTexture,
};
use hylarana::capture::{pack_u32_to_u64, ScreenCapture};
use hylarana::clock::waited;
use hylarana::media::{Size, Window};
use hylarana::rist::{Error, LogLevel, Profile};

#[test]
fn camel_case_names() {
    assert_eq!(to_camel_case("say_hello"), "sayHello");
    assert_eq!(to_camel_case("create_transport_sender"), "createTransportSender");
    assert_eq!(to_camel_case("already"), "already");
    assert_eq!(to_camel_case("_leading"), "leading");
    assert_eq!(to_camel_case("a__b"), "aB");
    assert_eq!(to_camel_case("trailing_"), "trailing");
    assert_eq!(to_camel_case("x_1y"), "x1y");
    assert_eq!(to_camel_case("x_\u{e9}t\u{e9}"), "x\u{c9}t\u{e9}");
    assert_eq!(to_camel_case(""), "");
    assert_eq!(to_camel_case("_say__hello"), "sayHello");
}

#[test]
fn pack_two_halves() {
    assert_eq!(pack_u32_to_u64(1, 2), 0x0000_0001_0000_0002);
    assert_eq!(pack_u32_to_u64(u32::MAX, 0), 0xFFFF_FFFF_0000_0000);
    assert_eq!(pack_u32_to_u64(0, u32::MAX), 0x0000_0000_FFFF_FFFF);
}

#[test]
fn rist_codes_and_names() {
    assert_eq!(Profile::Simple.code(), 0);
    assert_eq!(Profile::Main.code(), 1);
    assert_eq!(Profile::Advanced.code(), 2);
    assert_eq!(LogLevel::Disable.code(), -1);
    assert_eq!(LogLevel::Error.code(), 3);
    assert_eq!(LogLevel::Warn.code(), 4);
    assert_eq!(LogLevel::Notice.code(), 5);
    assert_eq!(LogLevel::Info.code(), 6);
    assert_eq!(LogLevel::Debug.code(), 7);
    assert_eq!(LogLevel::Simulate.code(), 100);
    assert_eq!(Error::SetLogging.as_str(), "SetLogging");
    assert_eq!(Error::SendDataBlock.as_str(), "SendDataBlock");
    assert_eq!(Error::SetReceiverCallback.as_str(), "SetReceiverCallback");
}

#[test]
fn window_size() {
    let size = Size { width: 1920, height: 1080 };
    assert_eq!(Window::Win32(42, size).size(), size);
}

#[test]
fn screen_capture_stops() {
    let mut capture = ScreenCapture::new();
    capture.stop();
}

#[test]
fn waited_never_goes_negative() {
    assert_eq!(waited(100, 40), 60);
    assert_eq!(waited(40, 100), 0);
}

#[test]
fn package_name_from_attribute() {
    let attr = vec![
        Token::Ident("package".to_string()),
        Token::Punct('='),
        Token::Literal("\"com.github.mycrl.hylarana\"".to_string()),
    ];
    assert_eq!(get_package_name(&attr), Some("com.github.mycrl.hylarana".to_string()));
    let wrong_word = vec![
        Token::Ident("class".to_string()),
        Token::Punct('='),
        Token::Literal("\"x\"".to_string()),
    ];
    assert_eq!(get_package_name(&wrong_word), None);
    let wrong_punct = vec![
        Token::Ident("package".to_string()),
        Token::Punct(':'),
        Token::Literal("\"x\"".to_string()),
    ];
    assert_eq!(get_package_name(&wrong_punct), None);
    let short = vec![Token::Ident("package".to_string()), Token::Punct('=')];
    assert_eq!(get_package_name(&short), None);
    let group = vec![Token::Group, Token::Punct('='), Token::Literal("\"x\"".to_string())];
    assert_eq!(get_package_name(&group), None);
}

#[test]
fn texture_plane_layouts() {
    let size = Size { width: 1281, height: 721 };
    let half = Size { width: 640, height: 360 };
    assert_eq!(
        create_texture_descriptor(SampleKind::I420, size),
        vec![
            (size, TextureFormat::R8Unorm),
            (half, TextureFormat::R8Unorm),
            (half, TextureFormat::R8Unorm)
        ]
    );
    assert_eq!(
        create_texture_descriptor(SampleKind::Nv12, size),
        vec![(size, TextureFormat::R8Unorm), (half, TextureFormat::Rg8Unorm)]
    );
    assert_eq!(
        create_texture_descriptor(SampleKind::Bgra, size),
        vec![(size, TextureFormat::Bgra8Unorm)]
    );
    assert_eq!(
        views_descriptors(SampleKind::Nv12, true),
        vec![
            (ViewTexture::External, TextureFormat::R8Unorm, TextureAspect::Plane0),
            (ViewTexture::External, TextureFormat::Rg8Unorm, TextureAspect::Plane1)
        ]
    );
    assert_eq!(
        views_descriptors(SampleKind::Rgba, false),
        vec![(ViewTexture::Own(0), TextureFormat::Rgba8Unorm, TextureAspect::All)]
    );
    assert_eq!(views_descriptors(SampleKind::I420, true).len(), 3);
    assert_eq!(
        copy_buffer_descriptors(SampleKind::Rgba, size),
        vec![(0, Size { width: 5124, height: 721 })]
    );
    assert_eq!(copy_buffer_descriptors(SampleKind::Nv12, size), vec![(0, size), (1, size)]);
    assert_eq!(
        copy_buffer_descriptors(SampleKind::I420, size),
        vec![(0, size), (1, half), (2, half)]
    );
}

#[test]
fn java_export_names() {
    assert_eq!(
        export_name("com_github_mycrl_hylarana", "Hylarana", "create_transport_sender"),
        "Java_com_github_mycrl_hylarana_Hylarana_createTransportSender"
    );
    assert_eq!(export_name("p", "C", "get"), "Java_p_C_get");
}
