# hashcodecs

The Base64 logic of the `_hashcodecs` Python extension, verified with Verus:
CPython-compatible encoding and decoding (strict, non-strict, URL-safe,
custom alphabets, discarded bytes, canonical checks, the rules of each
CPython version), the plans that choose a decoder, the byte kernels, the
batch decisions, and the argument binding and digest packing of the hash
bindings.

- `src/` is the verified library. `alphabet`, `symbols`, `lenient`,
  `configured`, `execution`, `plan`, `policy`, `fallback` and `encode` hold
  the codec; `roundtrip` states what decoding gives back of an encoding;
  `batch`, `arguments`, `digest` and `compat` hold the binding decisions.
- `tests/` runs the library on concrete values.
- `app/` is the Python module: argument conversion, exceptions, warnings,
  and the calls into `binascii` that the library prepares.
