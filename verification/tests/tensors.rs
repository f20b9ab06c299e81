use ndarray::{Array, ArrayD, Axis, IxDyn};
use trustmark_imaging::error::Error;
use trustmark_imaging::tensor::{model_input, model_output, Tensor};

/// The tensor of a square picture, laid out by `ndarray`.
fn expected_input(size: usize, samples: Vec<f32>) -> ArrayD<f32> {
    let array = Array::from(samples) * 2. - 1.;
    let mut array = array
        .to_shape([size, size, 3])
        .unwrap()
        .insert_axis(Axis(3))
        .reversed_axes();
    array.swap_axes(2, 3);
    array.into_owned().into_dyn()
}

/// The picture of a tensor, laid out by `ndarray`.
fn expected_output(height: usize, width: usize, data: Vec<f32>) -> Vec<f32> {
    let mut array = ArrayD::from_shape_vec(IxDyn(&[1, 3, height, width]), data).unwrap();
    array.swap_axes(2, 3);
    let array = array.reversed_axes().remove_axis(Axis(3));
    let array = array.to_shape([width * height * 3]).unwrap();
    ((array.to_owned() + 1.) / 2.).to_vec()
}

fn ramp(len: usize) -> Vec<f32> {
    (0..len).map(|i| (i * 13 % 41) as f32 / 40.0).collect()
}

#[test]
fn pictures_become_tensors() {
    for size in [0usize, 1, 2, 5, 16] {
        let samples = ramp(size * size * 3);
        let tensor = model_input(size as u32, samples.clone()).unwrap();
        assert_eq!(tensor.shape, [1, 3, size, size]);
        let expected: Vec<f32> = expected_input(size, samples).iter().copied().collect();
        assert_eq!(tensor.data, expected);
    }
    let tensor = model_input(1, vec![0.0f32, 0.5, 1.0]).unwrap();
    assert_eq!(tensor.data, [-1.0, 0.0, 1.0]);
}

#[test]
fn pictures_of_the_wrong_size_are_refused() {
    for (size, len) in [(2u32, 11), (2, 13), (0, 1), (3, 0), (65536, 5)] {
        match model_input(size, vec![0.0f32; len]) {
            Err(Error::Shape(e)) => {
                assert_eq!(e.kind(), ndarray::ErrorKind::IncompatibleShape)
            }
            _ => panic!("{size} {len}"),
        }
    }
}

#[test]
fn tensors_become_pictures() {
    for (height, width) in [(1usize, 1usize), (2, 3), (7, 4), (0, 3), (3, 0)] {
        let data: Vec<f32> = ramp(3 * height * width).iter().map(|v| v * 2. - 1.).collect();
        let tensor = Tensor { shape: vec![1, 3, height, width], data: data.clone() };
        let image = model_output(&tensor).unwrap();
        assert_eq!(image.width as usize, width);
        assert_eq!(image.height as usize, height);
        assert_eq!(image.channels, 3);
        assert_eq!(image.samples, expected_output(height, width, data));
    }
    let tensor = Tensor { shape: vec![1, 3, 1, 2], data: vec![-1.0f32, 0., 1., -1., 0., 1.] };
    assert_eq!(model_output(&tensor).unwrap().samples, [0., 1., 0.5, 0.5, 0., 1.]);
}

#[test]
fn tensors_of_the_wrong_shape_are_refused() {
    for shape in [vec![3, 2, 2], vec![2, 3, 1, 1], vec![1, 4, 1, 1], vec![1, 3, 2, 1, 1], vec![]] {
        let len: usize = shape.iter().product();
        let tensor = Tensor { shape, data: vec![0.0f32; len] };
        assert!(matches!(model_output(&tensor), Err(Error::InvalidShape)));
    }
}

#[test]
fn pictures_return_from_tensors() {
    let samples: Vec<f32> = (0..48).map(|i| i as f32 / 64.0).collect();
    let tensor = model_input(4, samples.clone()).unwrap();
    let image = model_output(&tensor).unwrap();
    assert_eq!((image.width, image.height), (4, 4));
    assert_eq!(image.samples, samples);
}

#[test]
fn tensors_return_from_pictures() {
    let data: Vec<f32> = (0..48).map(|i| i as f32 / 32.0 - 0.75).collect();
    let tensor = Tensor { shape: vec![1, 3, 4, 4], data: data.clone() };
    let image = model_output(&tensor).unwrap();
    let again = model_input(4, image.samples).unwrap();
    assert_eq!(again.shape, [1, 3, 4, 4]);
    assert_eq!(again.data, data);
}

#[test]
fn samples_from_a_quarter_up_return_exactly() {
    let samples: Vec<f32> = (0..300).map(|i| 0.25 + i as f32 * 0.75 / 299.0).collect();
    let tensor = model_input(10, samples.clone()).unwrap();
    assert_eq!(model_output(&tensor).unwrap().samples, samples);
}
