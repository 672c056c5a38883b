use rasterbuf::error::{AllocError, Error};
use rasterbuf::layer::Layer;

#[test]
fn layer_test_gray() {
    let layer = Layer::new_gray(100, 100).unwrap();
    let channel = layer.channel();

    assert!(
        channel.contains(&"gray".to_string()),
        "Layer 'gray' is missing!"
    );
    assert_eq!(channel.len(), 1, "To many channels? {:?}", channel);
}

#[test]
fn layer_test_rgb() {
    let layer = Layer::new_rgb(100, 100).unwrap();
    let channel = layer.channel();

    assert!(
        channel.contains(&"red".to_string()),
        "Layer 'red' is missing!"
    );
    assert!(
        channel.contains(&"green".to_string()),
        "Layer 'green' is missing!"
    );
    assert!(
        channel.contains(&"blue".to_string()),
        "Layer 'blue' is missing!"
    );
    assert_eq!(channel.len(), 3, "To many channels? {:?}", channel);
}

#[test]
fn layer_test_rgba() {
    let layer = Layer::new_rgba(100, 100).unwrap();
    let channel = layer.channel();

    assert!(
        channel.contains(&"red".to_string()),
        "Layer 'red' is missing!"
    );
    assert!(
        channel.contains(&"green".to_string()),
        "Layer 'green' is missing!"
    );
    assert!(
        channel.contains(&"blue".to_string()),
        "Layer 'blue' is missing!"
    );
    assert!(
        channel.contains(&"alpha".to_string()),
        "Layer 'alpha' is missing!"
    );
    assert_eq!(channel.len(), 4, "To many channels? {:?}", channel);
}

#[test]
fn duplicate_names_collapse() {
    let layer = Layer::new(4, 4, &["a", "b", "a", "b", "a"]).unwrap();
    let names = layer.channel();
    assert_eq!(names.len(), 2);
    assert!(names.contains(&"a".to_string()));
    assert!(names.contains(&"b".to_string()));
}

#[test]
fn layer_rejects_invalid_dimensions() {
    assert!(matches!(
        Layer::new(0, 5, &["x"]),
        Err(AllocError::Layout)
    ));
    assert!(matches!(Layer::new_gray(5, 0), Err(AllocError::Layout)));
    assert!(matches!(
        Layer::new_rgba(usize::MAX, 2),
        Err(AllocError::Layout)
    ));
}

#[test]
fn get_channel_by_name() {
    let layer = Layer::new_rgb(10, 20).unwrap();
    let red = layer.get_channel("red").expect("red must be present");
    assert_eq!(red.locked(), 0);
    assert!(layer.get_channel("gray").is_none());
    assert!(layer.get_channel("").is_none());
}

#[test]
fn get_channel_mut_updates_one_channel() {
    let mut layer = Layer::new_gray(2, 2).unwrap();
    assert!(layer.get_channel_mut("green").is_none());
    {
        let chan = layer.get_channel_mut("gray").expect("gray must be present");
        let mut wl = chan.write();
        wl.set(0, 0, 11);
        wl.set(1, 1, 44);
        chan.release_write(wl);
    }
    let chan = layer.get_channel_mut("gray").unwrap();
    let g = chan.read();
    assert_eq!(g.raw().as_slice(), &[11, 0, 0, 44]);
    chan.release_read(g);
}

#[test]
fn channels_in_layer_are_independent() {
    let mut layer = Layer::new_rgb(2, 1).unwrap();
    {
        let red = layer.get_channel_mut("red").unwrap();
        let wl = red.write();
        assert_eq!(red.locked(), -1);
        red.release_write(wl);
    }
    let green = layer.get_channel("green").unwrap();
    assert_eq!(green.locked(), 0);
}

#[test]
fn alloc_error_converts_to_error() {
    let e: Error = AllocError::Alloc.into();
    assert_eq!(e, Error::Alloc(AllocError::Alloc));
    let e2 = Error::from(AllocError::Layout);
    assert_eq!(e2, Error::Alloc(AllocError::Layout));
    assert_ne!(e, e2);
}
