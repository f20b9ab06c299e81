# trustmark_imaging

Image processing around the TrustMark watermarking model, verified with Verus.

The model works on square pictures with channels in [-1, 1] and answers with a residual that is
added back onto the picture.

| module | what it holds |
| --- | --- |
| `geometry` | the centre crop the model sees, and the size a residual is shrunk to |
| `model` | cropping and resizing a picture for the model, fitting a residual to a picture |
| `tensor` | the order of samples in a picture and in a tensor |
| `residual` | interpolating a residual and adding it to a picture of any pixel format |
| `boundary` | padding a residual with channel means |
| `sample` | the arithmetic that the above is written in |
| `determinism` | laws: the same inputs give the same result, and what the result does not depend on |
| `monotonicity` | laws: a brighter picture and residual give a brighter result |
| `bindings` | the calls into `image`, `fast_image_resize` and `ndarray`, with what is trusted of them |
| `error`, `variant` | the error type, and the variants of the model |

Samples are `f32` in use. The verified code is generic over the operators that std gives such
numbers, and its contracts describe each result by the operations that lead to it.

`app/` joins the library to `DynamicImage`, `ArrayD<f32>` and `ort::Value`.
