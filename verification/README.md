# libgtr

Communication with the PhotonFirst GTR-1001 fiber optic sensing system interrogator
("Gator") over a serial port: packet parsing, synchronization with the byte stream, and
a thread-safe way to receive parsed packets. The library is verified with Verus.

- `src/`: the verified library. `packet` parses packets, `sync` makes the decisions of
  the background reader, `stream` proves which packets the reader delivers from a byte
  stream, `reader` is the receiving end.
- `app/`: opens the serial port, runs the background thread, and computes wavelength and
  strain in floating point.
- `tests/`: tests of the library.

## Behaviour worth knowing

- A packet carries no checksum. Its header's size field is all that is checked, and the
  magic bytes in front of a packet need only two right bytes while the reader is in step.
- When the reader loses the stream, the bytes of the last search stay in its ring. Until
  four more bytes have been searched they can still be part of a match.
- Timeouts of packet reads add up over the life of the reader; every eleventh makes it
  search the stream again.

## Linux

To access the FTDI USB device as a regular user, add a udev rule for the vendor `0403`
with mode `0666` and reload the rules. If opening the port fails with
`DEVICE_NOT_OPENED`, unload or blacklist the `ftdi_sio` kernel module.
