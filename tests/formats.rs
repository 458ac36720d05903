use compress::flate::{inflate, FlateError, HuffmanTree};
use compress::lz4::{self, Lz4Error};
use compress::zlib::{self, ZlibError};

fn sample_text(n: usize) -> Vec<u8> {
    let words: Vec<&str> = "the quick brown fox jumps over the lazy dog while a compression library turns repeated phrases into short references and rare symbols into long codes so that every byte of this sample text has a purpose".split(' ').collect();
    let mut out: Vec<u8> = Vec::new();
    let mut x: u64 = 12345;
    while out.len() < n {
        x = (x * 1103515245 + 12345) % (1u64 << 31);
        let w = words[((x >> 8) as usize) % words.len()];
        out.extend_from_slice(w.as_bytes());
        out.push(if (x >> 4) % 11 == 0 { b'\n' } else { b' ' });
    }
    out.truncate(n);
    out
}

const ZLIB_LEVEL6: &[u8] = &[120, 156, 101, 86, 219, 162, 226, 32, 12, 124, 231, 43, 248, 53, 84, 220, 118, 87, 75, 79, 169, 123, 142, 251, 245, 75, 102, 18, 72, 235, 131, 138, 16, 146, 201, 228, 70, 138, 53, 61, 215, 71, 142, 183, 242, 43, 238, 211, 92, 227, 150, 182, 28, 183, 124, 207, 91, 94, 174, 185, 198, 71, 250, 247, 142, 181, 196, 252, 55, 111, 111, 253, 22, 225, 71, 89, 228, 198, 65, 118, 74, 85, 68, 211, 114, 107, 39, 105, 143, 151, 247, 158, 227, 58, 109, 169, 138, 162, 249, 210, 116, 191, 185, 41, 23, 127, 191, 158, 107, 141, 243, 178, 23, 46, 131, 211, 148, 130, 216, 192, 25, 52, 209, 174, 98, 173, 239, 231, 165, 60, 106, 220, 243, 143, 157, 40, 154, 38, 41, 24, 112, 112, 45, 55, 133, 84, 154, 136, 66, 93, 115, 218, 243, 109, 44, 8, 53, 171, 48, 252, 82, 152, 178, 171, 246, 100, 105, 219, 215, 242, 92, 183, 92, 235, 92, 150, 195, 250, 178, 149, 239, 133, 100, 37, 254, 56, 111, 224, 114, 157, 202, 182, 119, 236, 247, 242, 163, 70, 73, 131, 1, 145, 171, 65, 254, 164, 0, 207, 194, 215, 107, 190, 254, 137, 229, 30, 191, 167, 185, 97, 1, 37, 170, 74, 209, 189, 182, 69, 184, 83, 143, 26, 255, 78, 18, 209, 4, 57, 14, 142, 108, 130, 95, 224, 36, 129, 130, 7, 241, 231, 95, 23, 155, 166, 176, 147, 152, 40, 211, 227, 18, 68, 117, 192, 17, 49, 37, 194, 161, 152, 248, 147, 104, 157, 154, 232, 123, 64, 156, 146, 218, 232, 186, 201, 96, 66, 16, 120, 244, 25, 46, 26, 1, 108, 71, 126, 208, 236, 80, 106, 83, 60, 36, 146, 160, 144, 143, 232, 237, 1, 157, 53, 177, 105, 168, 177, 235, 174, 208, 131, 158, 127, 100, 19, 87, 116, 41, 217, 181, 190, 182, 181, 84, 253, 35, 241, 178, 4, 161, 70, 70, 45, 193, 179, 96, 178, 221, 13, 158, 26, 99, 86, 32, 194, 132, 135, 129, 180, 28, 25, 214, 111, 35, 195, 133, 194, 6, 49, 208, 163, 80, 238, 193, 216, 69, 178, 165, 129, 223, 172, 55, 39, 207, 245, 52, 114, 221, 10, 31, 43, 133, 87, 134, 201, 166, 30, 215, 152, 37, 224, 51, 12, 121, 132, 175, 203, 34, 222, 102, 84, 9, 103, 166, 227, 164, 169, 245, 81, 24, 220, 140, 106, 65, 34, 184, 26, 198, 119, 56, 245, 26, 74, 245, 248, 185, 82, 37, 124, 94, 5, 25, 112, 91, 105, 17, 242, 132, 26, 167, 233, 212, 85, 168, 82, 20, 137, 183, 96, 97, 136, 22, 216, 42, 56, 182, 184, 185, 115, 38, 8, 252, 20, 35, 73, 68, 217, 154, 80, 164, 181, 140, 238, 39, 39, 232, 22, 11, 35, 122, 136, 21, 245, 152, 1, 58, 36, 2, 129, 90, 15, 204, 49, 201, 68, 31, 36, 122, 155, 37, 139, 200, 101, 245, 80, 91, 138, 248, 21, 196, 36, 144, 209, 20, 92, 85, 2, 152, 151, 46, 109, 92, 121, 50, 131, 36, 52, 167, 30, 23, 78, 99, 0, 130, 52, 215, 75, 101, 210, 114, 241, 141, 203, 112, 219, 230, 185, 182, 185, 241, 81, 65, 135, 36, 19, 197, 174, 84, 29, 18, 50, 135, 212, 53, 239, 160, 79, 242, 215, 181, 56, 241, 30, 251, 116, 146, 4, 104, 151, 50, 157, 214, 138, 36, 235, 17, 68, 35, 250, 152, 55, 212, 128, 105, 10, 247, 76, 202, 126, 181, 182, 44, 91, 155, 9, 26, 144, 52, 248, 156, 39, 8, 52, 151, 35, 9, 32, 91, 53, 12, 248, 194, 110, 31, 17, 141, 254, 160, 41, 202, 246, 111, 64, 197, 45, 182, 7, 205, 83, 140, 118, 237, 66, 162, 148, 115, 74, 253, 161, 65, 200, 244, 62, 129, 232, 21, 157, 5, 39, 196, 204, 66, 189, 204, 231, 196, 33, 22, 0, 41, 251, 232, 137, 126, 102, 156, 20, 249, 245, 152, 39, 137, 130, 152, 93, 146, 96, 164, 91, 137, 68, 54, 43, 72, 180, 81, 241, 219, 235, 233, 188, 37, 4, 187, 173, 80, 74, 198, 226, 71, 9, 179, 185, 193, 93, 96, 196, 125, 27, 135, 218, 239, 14, 249, 62, 26, 143, 21, 27, 197, 181, 243, 129, 105, 155, 79, 90, 241, 103, 110, 250, 44, 13, 140, 6, 144, 4, 107, 2, 118, 155, 239, 51, 249, 34, 50, 26, 168, 218, 215, 201, 86, 127, 114, 73, 149, 184, 196, 209, 25, 126, 24, 50, 169, 215, 227, 233, 133, 192, 43, 188, 205, 20, 4, 54, 27, 51, 254, 61, 168, 148, 106, 123, 148, 85, 231, 43, 184, 49, 171, 179, 202, 208, 245, 95, 155, 21, 165, 199, 80, 20, 10, 69, 246, 72, 248, 104, 8, 73, 253, 214, 236, 144, 64, 73, 60, 209, 30, 241, 146, 154, 71, 241, 103, 255, 176, 105, 248, 88, 55, 226, 248, 104, 245, 96, 106, 76, 183, 116, 138, 120, 58, 191, 72, 142, 53, 101, 17, 21, 231, 49, 49, 70, 147, 232, 47, 172, 208, 187, 34, 208, 48, 120, 158, 114, 83, 237, 230, 183, 153, 181, 106, 2, 114, 108, 253, 7, 207, 241, 83, 23];
const ZLIB_LEVEL1: &[u8] = &[120, 1, 109, 86, 91, 130, 218, 48, 12, 252, 247, 41, 124, 53, 3, 166, 208, 66, 76, 227, 208, 45, 61, 125, 53, 51, 146, 99, 104, 63, 150, 205, 67, 150, 230, 33, 217, 41, 185, 151, 251, 227, 86, 243, 169, 125, 203, 219, 229, 218, 243, 90, 214, 154, 215, 122, 174, 107, 93, 142, 181, 231, 91, 249, 243, 202, 189, 229, 250, 171, 174, 47, 255, 69, 240, 173, 45, 88, 241, 22, 123, 41, 29, 161, 101, 57, 217, 155, 178, 229, 195, 107, 171, 249, 113, 89, 75, 71, 162, 235, 193, 114, 191, 244, 16, 11, 191, 63, 239, 143, 158, 175, 203, 214, 116, 153, 166, 170, 37, 161, 6, 223, 49, 147, 170, 59, 214, 254, 186, 31, 218, 173, 231, 173, 254, 222, 28, 145, 163, 177, 154, 192, 192, 23, 199, 118, 178, 170, 184, 109, 6, 221, 161, 62, 106, 217, 234, 201, 248, 249, 133, 160, 214, 172, 96, 242, 114, 152, 64, 232, 245, 112, 25, 232, 143, 237, 254, 88, 107, 239, 215, 182, 216, 162, 253, 250, 176, 182, 175, 69, 98, 21, 253, 155, 216, 80, 135, 126, 105, 235, 150, 3, 251, 185, 253, 246, 162, 146, 33, 128, 64, 238, 132, 155, 146, 200, 57, 253, 124, 94, 143, 63, 114, 59, 231, 175, 203, 213, 124, 162, 36, 158, 74, 206, 109, 207, 117, 233, 166, 157, 51, 50, 253, 167, 72, 186, 73, 113, 38, 56, 120, 72, 125, 233, 173, 164, 5, 30, 250, 175, 219, 201, 27, 75, 56, 68, 44, 138, 25, 190, 36, 164, 78, 212, 87, 152, 44, 0, 112, 20, 6, 221, 76, 12, 52, 138, 96, 203, 183, 68, 71, 139, 251, 63, 114, 75, 193, 194, 78, 84, 249, 193, 105, 92, 168, 8, 97, 79, 226, 75, 169, 33, 109, 153, 219, 183, 88, 181, 74, 243, 97, 238, 48, 212, 26, 157, 89, 84, 200, 212, 157, 228, 17, 131, 209, 127, 82, 147, 218, 248, 37, 218, 238, 241, 92, 31, 173, 91, 102, 220, 192, 175, 104, 16, 101, 148, 107, 133, 173, 151, 34, 118, 208, 208, 219, 80, 44, 6, 4, 74, 204, 48, 12, 247, 68, 114, 239, 89, 196, 81, 66, 131, 152, 196, 40, 181, 115, 242, 206, 74, 108, 54, 201, 72, 213, 163, 186, 145, 28, 190, 197, 212, 140, 94, 143, 193, 39, 77, 135, 215, 246, 146, 150, 158, 21, 213, 37, 212, 51, 177, 181, 24, 79, 255, 7, 57, 250, 29, 69, 93, 112, 141, 23, 223, 88, 59, 205, 46, 68, 224, 68, 92, 141, 48, 205, 48, 87, 211, 199, 127, 162, 134, 127, 35, 103, 205, 130, 175, 146, 20, 131, 180, 93, 22, 136, 7, 107, 167, 76, 190, 52, 38, 83, 41, 209, 53, 96, 107, 112, 231, 208, 134, 73, 180, 103, 120, 29, 190, 77, 239, 213, 32, 228, 137, 34, 5, 161, 188, 211, 144, 218, 29, 97, 96, 53, 222, 96, 107, 69, 239, 0, 212, 155, 87, 202, 19, 5, 68, 8, 1, 156, 90, 31, 194, 80, 78, 77, 134, 124, 140, 136, 62, 116, 21, 57, 141, 206, 208, 183, 20, 240, 74, 40, 73, 100, 42, 69, 170, 190, 173, 170, 47, 35, 189, 241, 165, 191, 202, 71, 148, 180, 134, 224, 119, 234, 243, 230, 61, 232, 104, 47, 137, 76, 28, 68, 140, 75, 120, 37, 108, 194, 29, 15, 63, 103, 91, 34, 69, 138, 255, 55, 25, 18, 19, 152, 184, 236, 160, 188, 21, 216, 186, 97, 47, 11, 216, 138, 36, 159, 185, 14, 236, 249, 92, 36, 37, 128, 239, 82, 145, 51, 78, 14, 28, 143, 52, 49, 132, 142, 196, 202, 167, 12, 48, 95, 219, 72, 68, 197, 127, 159, 45, 223, 186, 113, 72, 170, 0, 218, 96, 158, 118, 183, 15, 39, 178, 46, 247, 38, 96, 203, 152, 221, 180, 129, 63, 36, 97, 70, 41, 149, 201, 159, 240, 218, 84, 209, 246, 239, 83, 78, 90, 218, 30, 20, 72, 202, 177, 11, 1, 0, 121, 5, 31, 21, 100, 76, 128, 103, 49, 75, 205, 134, 248, 68, 172, 83, 192, 123, 136, 2, 0, 192, 254, 33, 65, 144, 120, 142, 192, 183, 51, 227, 131, 250, 44, 195, 126, 158, 152, 82, 168, 200, 179, 11, 13, 38, 185, 189, 149, 216, 205, 78, 19, 215, 228, 61, 231, 97, 113, 172, 47, 156, 106, 187, 226, 40, 133, 138, 19, 76, 247, 27, 54, 139, 46, 143, 109, 174, 231, 79, 208, 159, 150, 160, 34, 212, 126, 243, 182, 168, 37, 125, 231, 227, 71, 148, 107, 3, 24, 4, 249, 161, 13, 198, 145, 186, 164, 66, 170, 68, 146, 98, 19, 8, 91, 72, 141, 63, 114, 78, 5, 232, 183, 73, 164, 166, 139, 53, 28, 240, 169, 113, 228, 219, 108, 138, 70, 67, 221, 56, 49, 98, 126, 210, 213, 106, 181, 32, 141, 115, 28, 126, 230, 238, 31, 15, 96, 5, 109, 206, 196, 62, 244, 74, 108, 160, 217, 172, 193, 40, 80, 198, 112, 219, 234, 104, 52, 12, 36, 36, 138, 143, 132, 217, 74, 38, 44, 254, 241, 36, 190, 52, 10, 173, 133, 63, 0, 153, 142, 49, 24, 195, 91, 65, 53, 124, 140, 38, 113, 193, 66, 4, 149, 66, 85, 133, 155, 146, 131, 1, 88, 5, 142, 125, 255, 121, 155, 169, 112, 20, 228, 17, 78, 249, 180, 73, 192, 120, 86, 230, 142, 203, 164, 68, 35, 243, 102, 201, 227, 3, 142, 235, 116, 126, 71, 217, 152, 38, 34, 39, 232, 191, 207, 241, 83, 23];
const ZLIB_STORED: &[u8] = &[120, 1, 1, 184, 11, 71, 244, 97, 32, 115, 97, 109, 112, 108, 101, 32, 100, 111, 103, 32, 116, 104, 105, 115, 32, 114, 97, 114, 101, 32, 114, 101, 102, 101, 114, 101, 110, 99, 101, 115, 32, 108, 97, 122, 121, 32, 115, 111, 32, 101, 118, 101, 114, 121, 32, 101, 118, 101, 114, 121, 32, 100, 111, 103, 32, 108, 111, 110, 103, 32, 116, 104, 101, 32, 114, 101, 102, 101, 114, 101, 110, 99, 101, 115, 32, 104, 97, 115, 32, 115, 111, 32, 97, 110, 100, 32, 116, 104, 97, 116, 32, 98, 121, 116, 101, 32, 112, 104, 114, 97, 115, 101, 115, 32, 108, 105, 98, 114, 97, 114, 121, 32, 98, 121, 116, 101, 32, 116, 104, 101, 32, 106, 117, 109, 112, 115, 32, 105, 110, 116, 111, 32, 106, 117, 109, 112, 115, 10, 114, 101, 102, 101, 114, 101, 110, 99, 101, 115, 32, 97, 10, 100, 111, 103, 32, 105, 110, 116, 111, 32, 116, 104, 97, 116, 32, 101, 118, 101, 114, 121, 32, 115, 97, 109, 112, 108, 101, 32, 115, 121, 109, 98, 111, 108, 115, 32, 116, 101, 120, 116, 32, 101, 118, 101, 114, 121, 32, 108, 111, 110, 103, 32, 116, 104, 97, 116, 32, 104, 97, 115, 32, 116, 101, 120, 116, 32, 99, 111, 100, 101, 115, 32, 104, 97, 115, 32, 111, 118, 101, 114, 32, 116, 104, 101, 32, 114, 101, 112, 101, 97, 116, 101, 100, 32, 114, 101, 112, 101, 97, 116, 101, 100, 32, 97, 110, 100, 32, 116, 104, 101, 32, 99, 111, 100, 101, 115, 32, 100, 111, 103, 32, 108, 105, 98, 114, 97, 114, 121, 32, 116, 104, 101, 32, 115, 97, 109, 112, 108, 101, 32, 116, 104, 101, 32, 108, 105, 98, 114, 97, 114, 121, 32, 99, 111, 109, 112, 114, 101, 115, 115, 105, 111, 110, 32, 99, 111, 109, 112, 114, 101, 115, 115, 105, 111, 110, 32, 98, 114, 111, 119, 110, 32, 108, 97, 122, 121, 32, 97, 32, 108, 97, 122, 121, 32, 114, 101, 102, 101, 114, 101, 110, 99, 101, 115, 32, 98, 121, 116, 101, 32, 115, 104, 111, 114, 116, 32, 115, 121, 109, 98, 111, 108, 115, 32, 102, 111, 120, 32, 99, 111, 100, 101, 115, 32, 106, 117, 109, 112, 115, 32, 97, 110, 100, 32, 116, 104, 101, 32, 108, 97, 122, 121, 10, 97, 110, 100, 32, 97, 10, 101, 118, 101, 114, 121, 10, 113, 117, 105, 99, 107, 32, 111, 102, 32, 119, 104, 105, 108, 101, 32, 105, 110, 116, 111, 32, 115, 104, 111, 114, 116, 32, 115, 97, 109, 112, 108, 101, 32, 116, 117, 114, 110, 115, 10, 114, 101, 112, 101, 97, 116, 101, 100, 32, 115, 111, 32, 119, 104, 105, 108, 101, 32, 105, 110, 116, 111, 32, 114, 97, 114, 101, 32, 108, 111, 110, 103, 32, 114, 101, 102, 101, 114, 101, 110, 99, 101, 115, 32, 114, 97, 114, 101, 10, 100, 111, 103, 32, 108, 97, 122, 121, 32, 101, 118, 101, 114, 121, 32, 102, 111, 120, 32, 116, 104, 105, 115, 32, 101, 118, 101, 114, 121, 32, 106, 117, 109, 112, 115, 32, 105, 110, 116, 111, 32, 115, 111, 32, 104, 97, 115, 32, 111, 118, 101, 114, 32, 97, 32, 116, 104, 105, 115, 32, 105, 110, 116, 111, 32, 116, 104, 97, 116, 10, 108, 111, 110, 103, 10, 111, 118, 101, 114, 32, 115, 104, 111, 114, 116, 32, 97, 32, 116, 117, 114, 110, 115, 32, 116, 104, 105, 115, 32, 116, 104, 101, 32, 97, 32, 108, 111, 110, 103, 32, 105, 110, 116, 111, 32, 115, 121, 109, 98, 111, 108, 115, 10, 116, 104, 97, 116, 32, 97, 32, 106, 117, 109, 112, 115, 32, 104, 97, 115, 32, 111, 118, 101, 114, 32, 98, 114, 111, 119, 110, 32, 97, 32, 100, 111, 103, 32, 106, 117, 109, 112, 115, 32, 114, 101, 112, 101, 97, 116, 101, 100, 32, 114, 101, 112, 101, 97, 116, 101, 100, 32, 115, 104, 111, 114, 116, 32, 108, 97, 122, 121, 32, 99, 111, 109, 112, 114, 101, 115, 115, 105, 111, 110, 10, 101, 118, 101, 114, 121, 32, 115, 121, 109, 98, 111, 108, 115, 32, 97, 32, 114, 101, 102, 101, 114, 101, 110, 99, 101, 115, 32, 97, 10, 116, 104, 101, 32, 116, 104, 101, 32, 100, 111, 103, 32, 115, 97, 109, 112, 108, 101, 32, 116, 104, 105, 115, 32, 108, 97, 122, 121, 32, 106, 117, 109, 112, 115, 32, 111, 102, 32, 114, 101, 102, 101, 114, 101, 110, 99, 101, 115, 32, 116, 117, 114, 110, 115, 32, 100, 111, 103, 32, 105, 110, 116, 111, 32, 119, 104, 105, 108, 101, 32, 116, 104, 105, 115, 32, 119, 104, 105, 108, 101, 32, 116, 101, 120, 116, 32, 112, 117, 114, 112, 111, 115, 101, 32, 116, 101, 120, 116, 32, 97, 110, 100, 32, 108, 105, 98, 114, 97, 114, 121, 32, 106, 117, 109, 112, 115, 32, 113, 117, 105, 99, 107, 32, 97, 32, 111, 118, 101, 114, 10, 112, 117, 114, 112, 111, 115, 101, 32, 114, 101, 112, 101, 97, 116, 101, 100, 32, 113, 117, 105, 99, 107, 32, 115, 104, 111, 114, 116, 32, 97, 32, 112, 104, 114, 97, 115, 101, 115, 32, 104, 97, 115, 32, 114, 101, 102, 101, 114, 101, 110, 99, 101, 115, 32, 116, 104, 101, 32, 99, 111, 109, 112, 114, 101, 115, 115, 105, 111, 110, 32, 114, 101, 112, 101, 97, 116, 101, 100, 32, 104, 97, 115, 32, 116, 104, 97, 116, 32, 100, 111, 103, 10, 115, 97, 109, 112, 108, 101, 10, 111, 102, 10, 115, 121, 109, 98, 111, 108, 115, 10, 98, 121, 116, 101, 32, 97, 32, 100, 111, 103, 32, 105, 110, 116, 111, 32, 112, 117, 114, 112, 111, 115, 101, 32, 111, 102, 32, 105, 110, 116, 111, 32, 116, 104, 97, 116, 32, 101, 118, 101, 114, 121, 32, 108, 105, 98, 114, 97, 114, 121, 32, 116, 104, 105, 115, 32, 114, 97, 114, 101, 32, 116, 104, 105, 115, 32, 113, 117, 105, 99, 107, 32, 115, 111, 32, 114, 101, 112, 101, 97, 116, 101, 100, 32, 111, 102, 10, 116, 104, 97, 116, 32, 102, 111, 120, 32, 116, 104, 101, 32, 116, 104, 101, 10, 114, 97, 114, 101, 32, 116, 104, 105, 115, 32, 111, 118, 101, 114, 32, 114, 101, 112, 101, 97, 116, 101, 100, 32, 108, 111, 110, 103, 32, 112, 117, 114, 112, 111, 115, 101, 32, 115, 97, 109, 112, 108, 101, 32, 99, 111, 100, 101, 115, 32, 108, 111, 110, 103, 32, 115, 111, 32, 115, 97, 109, 112, 108, 101, 32, 116, 104, 105, 115, 32, 112, 117, 114, 112, 111, 115, 101, 32, 114, 101, 102, 101, 114, 101, 110, 99, 101, 115, 32, 98, 114, 111, 119, 110, 32, 116, 101, 120, 116, 32, 99, 111, 100, 101, 115, 32, 99, 111, 100, 101, 115, 10, 116, 104, 101, 32, 114, 101, 102, 101, 114, 101, 110, 99, 101, 115, 32, 98, 114, 111, 119, 110, 32, 106, 117, 109, 112, 115, 32, 111, 102, 32, 115, 97, 109, 112, 108, 101, 32, 116, 104, 101, 32, 113, 117, 105, 99, 107, 32, 99, 111, 100, 101, 115, 32, 98, 121, 116, 101, 32, 105, 110, 116, 111, 32, 98, 121, 116, 101, 32, 97, 32, 104, 97, 115, 32, 100, 111, 103, 32, 114, 101, 102, 101, 114, 101, 110, 99, 101, 115, 32, 115, 97, 109, 112, 108, 101, 32, 115, 121, 109, 98, 111, 108, 115, 32, 106, 117, 109, 112, 115, 32, 116, 104, 101, 32, 102, 111, 120, 32, 115, 111, 32, 114, 101, 102, 101, 114, 101, 110, 99, 101, 115, 32, 115, 111, 32, 111, 102, 32, 115, 111, 32, 116, 104, 101, 32, 112, 104, 114, 97, 115, 101, 115, 32, 114, 101, 102, 101, 114, 101, 110, 99, 101, 115, 32, 119, 104, 105, 108, 101, 32, 108, 111, 110, 103, 32, 100, 111, 103, 32, 97, 32, 115, 111, 32, 108, 111, 110, 103, 32, 116, 117, 114, 110, 115, 10, 115, 111, 32, 98, 121, 116, 101, 32, 116, 104, 101, 32, 115, 111, 32, 108, 97, 122, 121, 32, 97, 110, 100, 32, 104, 97, 115, 32, 105, 110, 116, 111, 32, 112, 117, 114, 112, 111, 115, 101, 32, 119, 104, 105, 108, 101, 32, 112, 104, 114, 97, 115, 101, 115, 32, 113, 117, 105, 99, 107, 32, 105, 110, 116, 111, 10, 100, 111, 103, 32, 97, 32, 116, 104, 105, 115, 32, 112, 117, 114, 112, 111, 115, 101, 32, 97, 32, 111, 118, 101, 114, 32, 115, 111, 32, 105, 110, 116, 111, 10, 108, 105, 98, 114, 97, 114, 121, 32, 98, 114, 111, 119, 110, 32, 116, 117, 114, 110, 115, 32, 115, 97, 109, 112, 108, 101, 32, 97, 10, 101, 118, 101, 114, 121, 32, 102, 111, 120, 10, 104, 97, 115, 32, 108, 111, 110, 103, 32, 119, 104, 105, 108, 101, 32, 102, 111, 120, 32, 115, 121, 109, 98, 111, 108, 115, 32, 115, 104, 111, 114, 116, 32, 112, 117, 114, 112, 111, 115, 101, 32, 111, 102, 32, 111, 118, 101, 114, 32, 98, 114, 111, 119, 110, 32, 105, 110, 116, 111, 32, 116, 101, 120, 116, 32, 108, 97, 122, 121, 32, 114, 101, 102, 101, 114, 101, 110, 99, 101, 115, 10, 114, 101, 102, 101, 114, 101, 110, 99, 101, 115, 32, 104, 97, 115, 32, 105, 110, 116, 111, 32, 101, 118, 101, 114, 121, 32, 112, 117, 114, 112, 111, 115, 101, 32, 116, 104, 101, 32, 116, 101, 120, 116, 32, 115, 97, 109, 112, 108, 101, 32, 116, 117, 114, 110, 115, 32, 115, 111, 32, 105, 110, 116, 111, 32, 115, 97, 109, 112, 108, 101, 32, 108, 97, 122, 121, 32, 99, 111, 109, 112, 114, 101, 115, 115, 105, 111, 110, 32, 108, 97, 122, 121, 32, 112, 117, 114, 112, 111, 115, 101, 32, 114, 101, 112, 101, 97, 116, 101, 100, 32, 108, 111, 110, 103, 32, 112, 117, 114, 112, 111, 115, 101, 32, 116, 104, 101, 32, 105, 110, 116, 111, 32, 119, 104, 105, 108, 101, 32, 114, 101, 102, 101, 114, 101, 110, 99, 101, 115, 32, 113, 117, 105, 99, 107, 32, 116, 104, 97, 116, 32, 115, 121, 109, 98, 111, 108, 115, 32, 108, 97, 122, 121, 32, 116, 104, 101, 10, 106, 117, 109, 112, 115, 32, 105, 110, 116, 111, 32, 102, 111, 120, 32, 108, 97, 122, 121, 32, 98, 114, 111, 119, 110, 32, 115, 104, 111, 114, 116, 32, 116, 104, 97, 116, 32, 97, 32, 119, 104, 105, 108, 101, 32, 114, 101, 112, 101, 97, 116, 101, 100, 32, 114, 97, 114, 101, 32, 98, 121, 116, 101, 32, 108, 105, 98, 114, 97, 114, 121, 32, 115, 121, 109, 98, 111, 108, 115, 32, 106, 117, 109, 112, 115, 32, 98, 114, 111, 119, 110, 32, 100, 111, 103, 32, 116, 117, 114, 110, 115, 32, 108, 105, 98, 114, 97, 114, 121, 32, 108, 105, 98, 114, 97, 114, 121, 32, 113, 117, 105, 99, 107, 32, 115, 97, 109, 112, 108, 101, 32, 116, 104, 97, 116, 32, 119, 104, 105, 108, 101, 32, 97, 110, 100, 32, 99, 111, 109, 112, 114, 101, 115, 115, 105, 111, 110, 32, 98, 114, 111, 119, 110, 32, 116, 104, 105, 115, 32, 98, 114, 111, 119, 110, 32, 113, 117, 105, 99, 107, 32, 105, 110, 116, 111, 32, 97, 110, 100, 32, 115, 111, 32, 116, 101, 120, 116, 32, 116, 101, 120, 116, 32, 105, 110, 116, 111, 32, 111, 102, 32, 119, 104, 105, 108, 101, 32, 104, 97, 115, 10, 115, 111, 32, 116, 104, 101, 32, 114, 97, 114, 101, 32, 108, 105, 98, 114, 97, 114, 121, 32, 115, 104, 111, 114, 116, 10, 98, 121, 116, 101, 32, 119, 104, 105, 108, 101, 32, 108, 97, 122, 121, 32, 115, 104, 111, 114, 116, 32, 97, 32, 97, 110, 100, 32, 98, 121, 116, 101, 32, 115, 121, 109, 98, 111, 108, 115, 32, 113, 117, 105, 99, 107, 32, 108, 97, 122, 121, 32, 108, 105, 98, 114, 97, 114, 121, 32, 116, 101, 120, 116, 32, 115, 111, 32, 111, 118, 101, 114, 32, 97, 110, 100, 32, 99, 111, 109, 112, 114, 101, 115, 115, 105, 111, 110, 32, 111, 118, 101, 114, 32, 115, 121, 109, 98, 111, 108, 115, 32, 100, 111, 103, 32, 116, 104, 101, 32, 114, 101, 102, 101, 114, 101, 110, 99, 101, 115, 32, 105, 110, 116, 111, 32, 100, 111, 103, 32, 111, 118, 101, 114, 10, 111, 118, 101, 114, 32, 115, 104, 111, 114, 116, 32, 97, 110, 100, 32, 99, 111, 109, 112, 114, 101, 115, 115, 105, 111, 110, 32, 99, 111, 109, 112, 114, 101, 115, 115, 105, 111, 110, 32, 97, 32, 116, 117, 114, 110, 115, 32, 116, 104, 97, 116, 32, 97, 110, 100, 32, 114, 97, 114, 101, 10, 104, 97, 115, 32, 106, 117, 109, 112, 115, 32, 115, 97, 109, 112, 108, 101, 32, 104, 97, 115, 32, 108, 105, 98, 114, 97, 114, 121, 32, 104, 97, 115, 32, 114, 97, 114, 101, 32, 99, 111, 109, 112, 114, 101, 115, 115, 105, 111, 110, 32, 105, 110, 116, 111, 32, 97, 110, 100, 32, 97, 32, 102, 111, 120, 32, 97, 110, 100, 10, 100, 111, 103, 32, 115, 111, 32, 116, 101, 120, 116, 32, 114, 101, 102, 101, 114, 101, 110, 99, 101, 115, 32, 119, 104, 105, 108, 101, 32, 114, 97, 114, 101, 32, 116, 101, 120, 116, 32, 115, 104, 111, 114, 116, 32, 105, 110, 116, 111, 32, 105, 110, 116, 111, 32, 115, 111, 32, 111, 118, 101, 114, 32, 114, 101, 102, 101, 114, 101, 110, 99, 101, 115, 32, 104, 97, 115, 32, 116, 104, 101, 32, 113, 117, 105, 99, 107, 32, 115, 97, 109, 112, 108, 101, 32, 97, 32, 105, 110, 116, 111, 32, 99, 111, 100, 101, 115, 32, 108, 97, 122, 121, 32, 115, 121, 109, 98, 111, 108, 115, 32, 97, 110, 100, 32, 104, 97, 115, 32, 114, 101, 102, 101, 114, 101, 110, 99, 101, 115, 32, 105, 110, 116, 111, 32, 108, 111, 110, 103, 10, 111, 118, 101, 114, 10, 97, 32, 97, 110, 100, 32, 119, 104, 105, 108, 101, 10, 112, 104, 114, 97, 115, 101, 115, 32, 115, 121, 109, 98, 111, 108, 115, 32, 114, 97, 114, 101, 32, 114, 97, 114, 101, 32, 115, 104, 111, 114, 116, 32, 99, 111, 100, 101, 115, 32, 115, 111, 32, 116, 104, 97, 116, 32, 116, 117, 114, 110, 115, 32, 112, 104, 114, 97, 115, 101, 115, 32, 108, 111, 110, 103, 32, 113, 117, 105, 99, 107, 32, 105, 110, 116, 111, 32, 111, 118, 101, 114, 32, 97, 32, 114, 101, 102, 101, 114, 101, 110, 99, 101, 115, 32, 116, 104, 97, 116, 32, 115, 97, 109, 112, 108, 101, 32, 114, 101, 102, 101, 114, 101, 110, 99, 101, 115, 32, 114, 97, 114, 101, 32, 105, 110, 116, 111, 32, 113, 117, 105, 99, 107, 32, 98, 114, 111, 119, 110, 32, 111, 118, 101, 114, 10, 115, 121, 109, 98, 111, 108, 115, 10, 101, 118, 101, 114, 121, 32, 101, 118, 101, 114, 121, 32, 102, 111, 120, 32, 97, 110, 100, 32, 115, 111, 32, 111, 102, 32, 97, 110, 100, 32, 105, 110, 116, 111, 32, 105, 110, 116, 111, 10, 108, 97, 122, 121, 32, 106, 117, 109, 112, 115, 32, 115, 97, 109, 112, 108, 101, 10, 112, 104, 114, 97, 115, 101, 115, 32, 112, 104, 114, 97, 115, 101, 115, 32, 112, 117, 114, 112, 111, 115, 101, 32, 115, 111, 32, 108, 105, 98, 114, 97, 114, 121, 32, 102, 111, 120, 32, 104, 97, 115, 32, 97, 32, 106, 117, 109, 112, 115, 32, 99, 111, 109, 112, 114, 101, 115, 115, 105, 111, 110, 32, 108, 97, 122, 121, 32, 97, 32, 99, 111, 100, 101, 115, 32, 116, 117, 114, 110, 115, 32, 116, 101, 120, 116, 32, 100, 111, 103, 32, 100, 111, 103, 32, 97, 110, 100, 32, 116, 104, 105, 115, 32, 113, 117, 105, 99, 107, 32, 116, 104, 101, 32, 116, 104, 105, 115, 32, 101, 118, 101, 114, 121, 32, 111, 102, 32, 116, 101, 120, 116, 32, 116, 104, 97, 116, 32, 106, 117, 109, 112, 115, 32, 116, 104, 101, 32, 108, 111, 110, 103, 32, 102, 111, 120, 32, 116, 104, 101, 32, 116, 104, 97, 116, 32, 105, 110, 116, 111, 32, 105, 110, 116, 111, 32, 115, 111, 32, 97, 32, 106, 117, 109, 112, 115, 32, 114, 101, 112, 101, 97, 116, 101, 100, 32, 108, 105, 98, 114, 97, 114, 121, 32, 115, 104, 111, 114, 116, 10, 97, 110, 100, 32, 104, 97, 115, 32, 111, 102, 32, 97, 32, 115, 111, 32, 114, 97, 114, 101, 32, 98, 121, 116, 101, 32, 108, 97, 122, 121, 32, 101, 118, 101, 114, 121, 10, 104, 97, 115, 32, 105, 110, 116, 111, 32, 116, 104, 105, 115, 32, 115, 104, 111, 114, 116, 32, 114, 101, 102, 101, 114, 101, 110, 99, 101, 115, 32, 114, 101, 112, 101, 97, 116, 101, 100, 32, 98, 121, 116, 101, 32, 97, 32, 100, 111, 103, 32, 97, 32, 106, 117, 109, 112, 115, 32, 100, 111, 103, 32, 116, 104, 101, 32, 116, 101, 120, 116, 32, 106, 117, 109, 112, 115, 207, 241, 83, 23];
const ZLIB_SHORT: &[u8] = &[120, 218, 75, 76, 42, 74, 76, 78, 76, 73, 4, 82, 10, 137, 216, 217, 0, 238, 40, 13, 61];

fn body(z: &[u8]) -> &[u8] {
    &z[2..(z.len() - 4)]
}

#[test]
fn flate_decode() {
    let reference = sample_text(3000);
    for z in [ZLIB_LEVEL6, ZLIB_LEVEL1, ZLIB_STORED] {
        let (out, end) = inflate(body(z)).unwrap();
        assert_eq!(out, reference);
        assert_eq!(end, z.len() - 6);
    }
}

#[test]
fn flate_large() {
    let (out, _) = inflate(body(ZLIB_SHORT)).unwrap();
    assert_eq!(&out[..], b"abracadabra abracadabra abracadabra");
}

#[test]
fn flate_stored_block() {
    let mut block = vec![0x01u8, 5, 0, 0xfa, 0xff];
    block.extend_from_slice(b"hello");
    let (out, end) = inflate(&block).unwrap();
    assert_eq!(&out[..], b"hello");
    assert_eq!(end, 10);
    block[3] = 0xfb;
    assert_eq!(inflate(&block), Err(FlateError::InvalidStaticSize));
}

#[test]
fn flate_errors() {
    assert_eq!(inflate(&[]), Err(FlateError::UnexpectedEof));
    assert_eq!(inflate(&[0x07]), Err(FlateError::InvalidBlockCode));
    assert_eq!(inflate(&[0x01, 5, 0]), Err(FlateError::UnexpectedEof));
    assert_eq!(inflate(&[0xfd, 0xff, 0xff, 0xff]), Err(FlateError::HuffmanTreeTooLarge));
    assert_eq!(FlateError::InvalidBlockCode.message(), "invalid block code");
}

#[test]
fn huffman_kraft() {
    assert_eq!(HuffmanTree::construct(&[1, 1, 1]).err(), Some(FlateError::HuffmanTreeTooLarge));
    assert_eq!(HuffmanTree::construct(&[1, 2, 2, 3]).err(), Some(FlateError::HuffmanTreeTooLarge));
    let t = HuffmanTree::construct(&[2, 1, 3, 3]).ok().unwrap();
    assert_eq!(&t.count[..4], &[0, 1, 1, 2]);
    assert_eq!(&t.symbol[..4], &[1, 0, 2, 3]);
    let empty = HuffmanTree::construct(&[0, 0]).ok().unwrap();
    assert_eq!(empty.count[0], 2);
}

#[test]
fn zlib_decode() {
    let reference = sample_text(3000);
    for z in [ZLIB_LEVEL6, ZLIB_LEVEL1, ZLIB_STORED, ZLIB_SHORT] {
        let out = zlib::decode(z).unwrap();
        assert_eq!(zlib::decode(z).is_ok(), true);
        if z.len() > 100 {
            assert_eq!(out, reference);
        }
    }
}

#[test]
fn zlib_large() {
    let mut z = ZLIB_LEVEL6.to_vec();
    let n = z.len();
    z[n - 1] ^= 0x55;
    assert_eq!(zlib::decode(&z), Err(ZlibError::ChecksumMismatch));
}

#[test]
fn zlib_header_errors() {
    assert_eq!(zlib::decode(&[0x78]), Err(ZlibError::UnexpectedEof));
    assert_eq!(zlib::validate_header(0x78, 0x9c), Ok(()));
    assert_eq!(zlib::validate_header(0x79, 0x9c), Err(ZlibError::UnsupportedFormat));
    assert_eq!(zlib::validate_header(0x88, 0x9c), Err(ZlibError::UnsupportedWindowSize));
    assert_eq!(zlib::validate_header(0x78, 0xbb), Err(ZlibError::PresetDictionary));
    assert_eq!(zlib::validate_header(0x78, 0x9d), Err(ZlibError::InvalidHeaderChecksum));
    assert_eq!(zlib::decode(&[0x78, 0x9c, 0x07]), Err(ZlibError::Flate(FlateError::InvalidBlockCode)));
    assert_eq!(zlib::decode(&[0x78, 0x9c, 0x03, 0x00]), Err(ZlibError::UnexpectedEof));
}

#[test]
fn raw_encode_block() {
    let data = sample_text(5000);
    let mut encoded = Vec::new();
    let n = lz4::encode_block(&data, &mut encoded);
    assert_eq!(n, encoded.len());
    assert!(n < data.len());
    let mut decoded = Vec::new();
    lz4::decode_block(&encoded[..], &mut decoded).unwrap();
    assert_eq!(&data[..], &decoded[..]);
}

#[test]
fn lz4_block_short_inputs() {
    for input in [&b""[..], b"a", b"aaaaaaaaaaaaaaaaaaaaaaaaaaaaaaaaaaa", b"abcabcabcabcabcabcabcabcabc"] {
        let mut encoded = Vec::new();
        lz4::encode_block(input, &mut encoded);
        let mut decoded = Vec::new();
        assert_eq!(lz4::decode_block(&encoded, &mut decoded), Ok(input.len()));
        assert_eq!(&decoded[..], input);
    }
}

#[test]
fn lz4_block_errors() {
    let mut out = Vec::new();
    assert_eq!(lz4::decode_block(&[0x10], &mut out), Err(Lz4Error::UnexpectedEof));
    assert_eq!(lz4::decode_block(&[0x10, b'a', 0, 0, 0], &mut out), Err(Lz4Error::InvalidDistance));
    assert_eq!(lz4::decode_block(&[0x10, b'a', 2, 0, 0], &mut out), Err(Lz4Error::InvalidDistance));
    assert_eq!(lz4::decode_block(&[0x11, b'a', 1, 0, 0x00], &mut out), Ok(6));
    assert_eq!(&out[..], b"aaaaaa");
    assert_eq!(lz4::compression_bound(100), Some(120));
    assert_eq!(lz4::compression_bound(0x7e000001), None);
}

fn roundtrip_frame(bytes: &[u8]) {
    let encoded = lz4::frame_encode(bytes);
    assert_eq!(lz4::frame_decode(&encoded).unwrap(), bytes.to_vec());
}

#[test]
fn lz4_some_roundtrips() {
    roundtrip_frame(b"test");
    roundtrip_frame(b"");
    roundtrip_frame(&sample_text(300000));
}

#[test]
fn lz4_decode() {
    let reference = sample_text(4000);
    let mut block = Vec::new();
    lz4::encode_block(&reference, &mut block);
    let mut frame = vec![0x04, 0x22, 0x4d, 0x18, 0x60, 0x50, 0x00];
    lz4::write_u32_le(&mut frame, block.len() as u32);
    frame.extend_from_slice(&block);
    lz4::write_u32_le(&mut frame, 0);
    assert_eq!(lz4::frame_decode(&frame).unwrap(), reference);
    let mut checked = vec![0x04, 0x22, 0x4d, 0x18, 0x70, 0x50, 0x00];
    lz4::write_u32_le(&mut checked, block.len() as u32);
    checked.extend_from_slice(&block);
    lz4::write_u32_le(&mut checked, 0xdeadbeef);
    lz4::write_u32_le(&mut checked, 0);
    assert_eq!(lz4::frame_decode(&checked).unwrap(), reference);
}

#[test]
fn lz4_frame_errors() {
    assert_eq!(lz4::frame_decode(&[0x04, 0x22]), Err(Lz4Error::UnexpectedEof));
    assert_eq!(lz4::frame_decode(&[0, 0, 0, 0, 0x60, 0x50, 0]), Err(Lz4Error::InvalidMagic));
    assert_eq!(lz4::frame_decode(&[0x04, 0x22, 0x4d, 0x18, 0xa0, 0x50, 0]), Err(Lz4Error::InvalidVersion));
    assert_eq!(lz4::frame_decode(&[0x04, 0x22, 0x4d, 0x18, 0x61, 0x50, 0]), Err(Lz4Error::PresetDictionary));
    assert_eq!(lz4::frame_decode(&[0x04, 0x22, 0x4d, 0x18, 0x60, 0x50, 0, 1]), Err(Lz4Error::UnexpectedEof));
}

#[test]
fn lz4_frame_exact_bytes_and_block_size() {
    let f = lz4::frame_encode(b"test");
    assert_eq!(f, vec![0x04, 0x22, 0x4D, 0x18, 0x60, 0x50, 0x00, 0x04, 0x00, 0x00, 0x80, b't', b'e', b's', b't', 0, 0, 0, 0, 0, 0, 0, 0]);
    let mut bad = f.clone();
    bad[5] = 0x30;
    assert_eq!(lz4::frame_decode(&bad), Err(Lz4Error::UnsupportedBlockSize));
    let mut small = f.clone();
    small[5] = 0x40;
    assert_eq!(lz4::frame_decode(&small).unwrap(), b"test".to_vec());
}

#[test]
fn lz4_block_size_bound() {
    let data = sample_text(20000);
    let mut enc = Vec::new();
    let n = lz4::encode_block(&data, &mut enc);
    assert!(n <= data.len() + data.len() / 255 + 20);
    let noise: Vec<u8> = (0..5000u32).map(|i| (i.wrapping_mul(2654435761) >> 13) as u8).collect();
    let n = lz4::encode_block(&noise, &mut enc);
    assert!(n <= noise.len() + noise.len() / 255 + 20);
    let mut dec = Vec::new();
    assert_eq!(lz4::decode_block(&enc, &mut dec), Ok(noise.len()));
    assert_eq!(dec, noise);
}
